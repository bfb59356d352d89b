//! What holds of every fragment, proved from the model.

use vstd::prelude::*;
use crate::component::Component;
use crate::fragment::aside::fits;
use crate::fragment::builder::{BuilderView, PartSpec};
use crate::fragment::exposure::{lemma_rows_detached_unhook, rows_exposed};
use crate::fragment::liveness::lemma_rows_detach_succeed;
use crate::fragment::ownership::{lemma_rows_exposed_owned, rows_owned, within};
use crate::fragment::model::{fragments_detached, list_of, noted, registered, selects};
use crate::fragment::model::{FragmentView, PartView, Step, World};
use crate::host::model::{lemma_others_coarser, others};
use crate::host::model::NodeId;

verus! {

// ======================================================================================
// Updates reach the parts that depend on what changed, and no others
// ======================================================================================
/// Registering a part under its dependency ids adds the part to the lists of those ids and
/// changes no other list.
pub proof fn lemma_noted(
    dependencies: Map<usize, Seq<usize>>,
    known: Seq<usize>,
    ids: Seq<usize>,
    part: usize,
    k: nat,
    id: usize,
    other: usize,
)
    requires
        k <= ids.len(),
    ensures
        list_of(noted(dependencies, known, ids, part, k).0, id).contains(other) <==> (list_of(
            dependencies,
            id,
        ).contains(other) || (other == part && ids.subrange(0, k as int).contains(id))),
    decreases k,
{
    if k > 0 {
        lemma_noted(dependencies, known, ids, part, (k - 1) as nat, id, other);
        let (index, _) = noted(dependencies, known, ids, part, (k - 1) as nat);
        let last = ids[k - 1];
        let earlier = ids.subrange(0, k - 1);
        let now = ids.subrange(0, k as int);
        let list = list_of(index, last).push(part);
        assert(now =~= earlier.push(last));
        if now.contains(id) {
            let i = choose|i: int| 0 <= i < now.len() && now[i] == id;
            if i < k - 1 {
                assert(earlier[i] == id);
            }
        }
        if earlier.contains(id) {
            let i = choose|i: int| 0 <= i < earlier.len() && earlier[i] == id;
            assert(now[i] == id);
        }
        assert(now[k - 1] == last);
        if id == last {
            assert(list[list.len() - 1] == part);
            if list.contains(other) {
                let i = choose|i: int| 0 <= i < list.len() && list[i] == other;
                if i < list.len() - 1 {
                    assert(list_of(index, last)[i] == other);
                }
            }
            if list_of(index, last).contains(other) {
                let i = choose|i: int|
                    0 <= i < list_of(index, last).len() && list_of(index, last)[i] == other;
                assert(list[i] == other);
            }
        }
    } else {
        assert(ids.subrange(0, 0) =~= Seq::<usize>::empty());
    }
}

/// What a built fragment has registered is what its builder lists: a part stands under a
/// dependency id exactly if the builder names the id among the dependencies of the part.
pub proof fn lemma_registered_as_listed<C>(parts: Seq<PartSpec<C>>, n: nat, id: usize, part: usize)
    requires
        n <= parts.len(),
        n <= usize::MAX,
    ensures
        list_of(registered(parts, n).0, id).contains(part) <==> (part < n && parts[part as int].dependencies.contains(
            id,
        )),
    decreases n,
{
    if n > 0 {
        lemma_registered_as_listed(parts, (n - 1) as nat, id, part);
        let (index, seen) = registered(parts, (n - 1) as nat);
        let ids = parts[n - 1].dependencies;
        lemma_noted(index, seen, ids, (n - 1) as usize, ids.len(), id, part);
        assert(ids.subrange(0, ids.len() as int) =~= ids);
    }
}

/// Whether the changed dependency ids meet the dependencies that the builder lists for a
/// part.
pub open spec fn depends_on_changed(dependencies: Seq<usize>, changed: Seq<usize>) -> bool {
    exists|k: int| 0 <= k < changed.len() && dependencies.contains(#[trigger] changed[k])
}

impl<C: Component> BuilderView<C> {
    /// An update selects a part of a built fragment exactly if one of the changed dependency
    /// ids is among the dependencies that the builder lists for the part.
    pub proof fn lemma_selected_as_listed(self, levels: nat, world: World, changed: Seq<usize>, part: usize)
        requires
            self.well_formed(),
            self.parts.len() <= usize::MAX,
            part < self.parts.len(),
        ensures
            selects(self.built(levels, world).state.dependencies, changed, part)
                <==> depends_on_changed(self.parts[part as int].dependencies, changed),
    {
        let index = self.built(levels, world).state.dependencies;
        assert(index == registered(self.parts, self.parts.len()).0);
        if selects(index, changed, part) {
            let k = choose|k: int|
                0 <= k < changed.len() && list_of(index, #[trigger] changed[k]).contains(part);
            lemma_registered_as_listed(self.parts, self.parts.len(), changed[k], part);
        }
        if depends_on_changed(self.parts[part as int].dependencies, changed) {
            let k = choose|k: int|
                0 <= k < changed.len() && self.parts[part as int].dependencies.contains(
                    #[trigger] changed[k],
                );
            lemma_registered_as_listed(self.parts, self.parts.len(), changed[k], part);
        }
    }
}

impl<C: Component> FragmentView<C> {
    /// Selective dispatch. An update of a mounted fragment passes over every part that is
    /// not registered under a changed dependency id: the part and the world stay as they
    /// are. It updates every part that is, once, in the world that the parts before it have
    /// left, unless a part before it has failed. Nothing else of the fragment changes. An
    /// update of a fragment that is not mounted changes nothing at all.
    pub proof fn lemma_update_selects(
        self,
        levels: nat,
        world: World,
        context: C,
        changed: Seq<usize>,
        part: int,
    )
        requires
            0 <= part < self.parts.len(),
        ensures
            ({
                let step = self.updated(levels, world, context, changed);
                let (before, failure) = self.parts_updated(
                    levels,
                    world,
                    context,
                    changed,
                    part as nat,
                );
                let after = self.parts_updated(levels, world, context, changed, (part + 1) as nat);
                let own = self.parts[part].1.updated(levels, before, context, changed);
                &&& !self.mounted ==> step == (Step { state: self, world, failure: None })
                &&& self.mounted ==> step.state == (FragmentView { parts: step.state.parts, ..self })
                &&& self.mounted ==> step.state.parts.len() == self.parts.len()
                &&& self.mounted ==> step.state.parts[part].0 == self.parts[part].0
                &&& self.mounted && !selects(self.dependencies, changed, part as usize) ==> {
                    &&& step.state.parts[part] == self.parts[part]
                    &&& after == (before, failure)
                }
                &&& self.mounted && selects(self.dependencies, changed, part as usize) && failure
                    is None ==> {
                    &&& step.state.parts[part].1 == own.state
                    &&& after == (own.world, own.failure)
                }
                &&& self.mounted && failure is Some ==> {
                    &&& step.state.parts[part] == self.parts[part]
                    &&& after == (before, failure)
                }
            }),
    {
    }
}

impl<C: Component> FragmentView<C> {
    /// The nodes of the parts that an update for `changed` selects.
    pub open spec fn reached(self, changed: Seq<usize>) -> Set<NodeId> {
        Set::new(
            |node: NodeId|
                exists|i: int|
                    0 <= i < self.parts.len() && selects(self.dependencies, changed, i as usize) && (
                    #[trigger] self.parts[i]).1.owned().contains(node),
        )
    }

    /// While the parts are updated one after the other, the nodes that no selected part owns
    /// stay where they are, with their text.
    pub proof fn lemma_parts_updated_reach(
        self,
        levels: nat,
        world: World,
        context: C,
        changed: Seq<usize>,
        j: nat,
    )
        requires
            world.host.wf(),
            j <= self.parts.len(),
            self.parts_updated(levels, world, context, changed, j).1 is None,
            fits(self.parts_updated(levels, world, context, changed, j).0.host),
        ensures
            within(
                self.reached(changed),
                self.reached(changed),
                world.host,
                self.parts_updated(levels, world, context, changed, j).0.host,
            ),
        decreases j,
    {
        if j > 0 {
            let (before, failure) = self.parts_updated(
                levels,
                world,
                context,
                changed,
                (j - 1) as nat,
            );
            let after = self.parts_updated(levels, world, context, changed, j).0;
            let part = self.parts[j - 1].1;
            self.lemma_parts_updated_keep(levels, world, context, changed, (j - 1) as nat);
            part.lemma_updated_keeps(levels, before, context, changed);
            self.lemma_parts_updated_reach(levels, world, context, changed, (j - 1) as nat);
            if selects(self.dependencies, changed, (j - 1) as usize) {
                part.lemma_updated_within(levels, before, context, changed);
                assert forall|node: NodeId|
                    world.host.has(node) && !self.reached(changed).contains(
                        node,
                    ) implies #[trigger] after.host.parent_of(node) == world.host.parent_of(node) by {
                    assert(!self.parts[j - 1].1.owned().contains(node));
                    assert(before.host.parent_of(node) == world.host.parent_of(node));
                }
                assert forall|node: NodeId|
                    world.host.has(node) && !self.reached(changed).contains(
                        node,
                    ) implies #[trigger] after.host.data_of(node) == world.host.data_of(node) by {
                    assert(!self.parts[j - 1].1.owned().contains(node));
                    assert(before.host.data_of(node) == world.host.data_of(node));
                }
                let count = world.host.nodes.len();
                assert forall|node: NodeId| world.host.has(node) implies others(
                    #[trigger] after.host.children_of(node),
                    self.reached(changed),
                    count,
                ) == others(world.host.children_of(node), self.reached(changed), count) by {
                    assert(before.host.has(node));
                    assert forall|x: NodeId|
                        x < count && !self.reached(changed).contains(x) implies x
                            < before.host.nodes.len() && !part.owned().contains(x) by {
                        if self.parts[j - 1].1.owned().contains(x) {
                        }
                    }
                    lemma_others_coarser(
                        after.host.children_of(node),
                        before.host.children_of(node),
                        part.owned(),
                        before.host.nodes.len(),
                        self.reached(changed),
                        count,
                    );
                }
            }
        }
    }

    /// Selective dispatch, seen from the host. An update that succeeds moves no node and
    /// overwrites no text but of the parts that it selects: every node that the host had and
    /// that no selected part owns has the parent and the text it had, and under every node
    /// the children that no selected part owns are the same, in the same order.
    pub proof fn lemma_update_leaves_the_rest(
        self,
        levels: nat,
        world: World,
        context: C,
        changed: Seq<usize>,
    )
        requires
            world.host.wf(),
            self.updated(levels, world, context, changed).failure is None,
            fits(self.updated(levels, world, context, changed).world.host),
        ensures
            ({
                let after = self.updated(levels, world, context, changed).world.host;
                &&& world.host.nodes.len() <= after.nodes.len()
                &&& forall|node: NodeId|
                    world.host.has(node) && !self.reached(changed).contains(node)
                        ==> #[trigger] after.parent_of(node) == world.host.parent_of(node)
                &&& forall|node: NodeId|
                    world.host.has(node) && !self.reached(changed).contains(node)
                        ==> #[trigger] after.data_of(node) == world.host.data_of(node)
                &&& forall|node: NodeId|
                    world.host.has(node) ==> others(
                        #[trigger] after.children_of(node),
                        self.reached(changed),
                        world.host.nodes.len(),
                    ) == others(
                        world.host.children_of(node),
                        self.reached(changed),
                        world.host.nodes.len(),
                    )
            }),
    {
        if self.mounted {
            self.lemma_parts_updated_reach(levels, world, context, changed, self.parts.len());
        }
    }

    /// A part that is passed over keeps what it has. Where no two parts of a fragment own
    /// the same node, an update that succeeds leaves a part that it does not select as it
    /// is, and every node of the host that the part owns, its own node and the nodes of the
    /// fragments below it, where it was and with the text it had. Under every node, the
    /// children that no selected part owns, those of the part among them, are the same and
    /// in the same order.
    pub proof fn lemma_passed_over_keeps_its_nodes(
        self,
        levels: nat,
        world: World,
        context: C,
        changed: Seq<usize>,
        part: int,
    )
        requires
            world.host.wf(),
            self.spread(),
            0 <= part < self.parts.len(),
            !selects(self.dependencies, changed, part as usize),
            self.updated(levels, world, context, changed).failure is None,
            fits(self.updated(levels, world, context, changed).world.host),
        ensures
            ({
                let step = self.updated(levels, world, context, changed);
                let own = self.parts[part].1.owned();
                &&& step.state.parts[part] == self.parts[part]
                &&& forall|node: NodeId|
                    world.host.has(node) && own.contains(node)
                        ==> #[trigger] step.world.host.parent_of(node) == world.host.parent_of(node)
                &&& forall|node: NodeId|
                    world.host.has(node) && own.contains(node)
                        ==> #[trigger] step.world.host.data_of(node) == world.host.data_of(node)
                &&& forall|node: NodeId|
                    world.host.has(node) ==> others(
                        #[trigger] step.world.host.children_of(node),
                        self.reached(changed),
                        world.host.nodes.len(),
                    ) == others(
                        world.host.children_of(node),
                        self.reached(changed),
                        world.host.nodes.len(),
                    )
                &&& own.disjoint(self.reached(changed))
            }),
    {
        let own = self.parts[part].1.owned();
        self.lemma_update_selects(levels, world, context, changed, part);
        self.lemma_update_leaves_the_rest(levels, world, context, changed);
        assert forall|node: NodeId| own.contains(node) implies !self.reached(changed).contains(
            node,
        ) by {
            if self.reached(changed).contains(node) {
                let i = choose|i: int|
                    0 <= i < self.parts.len() && selects(self.dependencies, changed, i as usize) && (
                    #[trigger] self.parts[i]).1.owned().contains(node);
                assert(self.parts[i].1.owned().disjoint(self.parts[part].1.owned()));
            }
        }
    }
}

// ======================================================================================
// A conditional mounts and detaches on transitions only
// ======================================================================================
impl<C: Component> PartView<C> {
    /// Whether the part is a conditional whose fragment is mounted.
    pub open spec fn shows(self) -> bool {
        self is Conditional && self->fragment_mounted
    }

    /// Conditional idempotence. After an update that succeeded, a conditional shows its
    /// fragment exactly if its condition holds. An update that finds the condition as the
    /// conditional shows it neither mounts nor detaches: where the fragment is hidden,
    /// nothing happens at all; where it shows, the update is passed on to the fragment and
    /// that is all.
    pub proof fn lemma_conditional_settles(
        self,
        levels: nat,
        world: World,
        context: C,
        changed: Seq<usize>,
    )
        requires
            self is Conditional,
            levels > 0,
        ensures
            ({
                let step = self.updated(levels, world, context, changed);
                let holds = context.holds(self->check_condition);
                let passed = self->fragment.updated((levels - 1) as nat, world, context, changed);
                &&& step.state is Conditional
                &&& step.state->check_condition == self->check_condition
                &&& step.state->Conditional_anchor == self->Conditional_anchor
                &&& step.failure is None ==> step.state.shows() == holds
                &&& holds == self.shows() && !holds ==> step == (Step {
                    state: self,
                    world,
                    failure: None,
                })
                &&& holds == self.shows() && holds ==> step == (Step {
                    state: PartView::Conditional {
                        check_condition: self->check_condition,
                        fragment: Box::new(passed.state),
                        anchor: self->Conditional_anchor,
                        fragment_mounted: true,
                    },
                    world: passed.world,
                    failure: passed.failure,
                })
            }),
    {
    }

    /// Of two updates in a row under which the condition gives the same result, the second
    /// neither mounts nor detaches the fragment, whatever the first had to do.
    pub proof fn lemma_conditional_repeats(
        self,
        levels: nat,
        world: World,
        context: C,
        changed: Seq<usize>,
        next: C,
        changed_next: Seq<usize>,
    )
        requires
            self is Conditional,
            levels > 0,
            self.updated(levels, world, context, changed).failure is None,
            next.holds(self->check_condition) == context.holds(self->check_condition),
        ensures
            ({
                let first = self.updated(levels, world, context, changed);
                let second = first.state.updated(levels, first.world, next, changed_next);
                let passed = first.state->fragment.updated(
                    (levels - 1) as nat,
                    first.world,
                    next,
                    changed_next,
                );
                if context.holds(self->check_condition) {
                    &&& second.world == passed.world
                    &&& second.failure == passed.failure
                    &&& second.state->fragment == passed.state
                    &&& second.state.shows()
                } else {
                    second == (Step { state: first.state, world: first.world, failure: None })
                }
            }),
    {
        self.lemma_conditional_settles(levels, world, context, changed);
        let first = self.updated(levels, world, context, changed);
        first.state.lemma_conditional_settles(levels, first.world, next, changed_next);
    }
}

// ======================================================================================
// A repeated block replaces all its fragments
// ======================================================================================
impl<C: Component> PartView<C> {
    /// While no row fails, there is one fragment for each item so far.
    pub proof fn lemma_rows_count(
        self,
        levels: nat,
        world: World,
        context: C,
        anchor: NodeId,
        items: Seq<BuilderView<C>>,
        k: nat,
    )
        requires
            k <= items.len(),
            self.rows(levels, world, context, anchor, items, k).failure is None,
        ensures
            self.rows(levels, world, context, anchor, items, k).state.len() == k,
            forall|i: nat|
                i <= k ==> (#[trigger] self.rows(levels, world, context, anchor, items, i)).failure
                    is None,
            forall|i: int|
                0 <= i < k ==> (#[trigger] self.rows(
                    levels,
                    world,
                    context,
                    anchor,
                    items,
                    k,
                ).state[i]) == self.row(
                    levels,
                    self.rows(levels, world, context, anchor, items, i as nat).world,
                    context,
                    anchor,
                    items[i],
                ).state,
        decreases k,
    {
        if k > 0 {
            let before = self.rows(levels, world, context, anchor, items, (k - 1) as nat);
            self.lemma_rows_count(levels, world, context, anchor, items, (k - 1) as nat);
            assert forall|i: nat| i <= k implies (#[trigger] self.rows(
                levels,
                world,
                context,
                anchor,
                items,
                i,
            )).failure is None by {
                if i < k {
                    assert(i <= (k - 1) as nat);
                }
            }
        }
    }

    /// Full rebuild. An update of a repeated block that succeeds detaches every fragment that
    /// the block had, each once and in order, before it makes any new one; it then has
    /// exactly one fragment for each item that the component produces; and each of these is
    /// made anew from the builder of its item: built, mounted in front of the anchor and
    /// fully updated, in the world that the rows before it have left. No fragment is kept.
    pub proof fn lemma_each_rebuilds(self, levels: nat, world: World, context: C, changed: Seq<usize>)
        requires
            self is Each,
            self.updated(levels, world, context, changed).failure is None,
        ensures
            ({
                let step = self.updated(levels, world, context, changed);
                let old_fragments = self->mounted_fragments;
                let items = context.items_of(self->get_items);
                let (cleared, failure) = fragments_detached(
                    old_fragments,
                    world.host,
                    true,
                    old_fragments.len(),
                );
                let anchor = self->Each_anchor;
                &&& failure is None
                &&& step.state is Each
                &&& step.state->mounted_fragments.len() == items.len()
                &&& step == (Step {
                    state: PartView::Each {
                        get_items: self->get_items,
                        mounted_fragments: step.state->mounted_fragments,
                        anchor,
                    },
                    world: self.rows(
                        levels,
                        world.on(cleared),
                        context,
                        anchor,
                        items,
                        items.len(),
                    ).world,
                    failure: None,
                })
                &&& forall|i: int|
                    0 <= i < items.len() ==> (#[trigger] step.state->mounted_fragments[i])
                        == self.row(
                        levels,
                        self.rows(levels, world.on(cleared), context, anchor, items, i as nat).world,
                        context,
                        anchor,
                        items[i],
                    ).state
            }),
    {
        let old_fragments = self->mounted_fragments;
        let items = context.items_of(self->get_items);
        let (cleared, failure) = fragments_detached(
            old_fragments,
            world.host,
            true,
            old_fragments.len(),
        );
        self.lemma_rows_count(
            levels,
            world.on(cleared),
            context,
            self->Each_anchor,
            items,
            items.len(),
        );
    }

    /// The old rows leave the tree, and the anchor stays. Of a repeated block in good
    /// standing, the detach of the old fragments never fails. After an update that succeeds,
    /// every node that an old fragment had in the tree at its top level has no parent, so
    /// none of them is left beside the anchor; the anchor has the parent it had; no other
    /// node that the host had has moved or has another text; and under every node the other
    /// children that the host had are the same, in the same order.
    pub proof fn lemma_each_clears_old_rows(
        self,
        levels: nat,
        world: World,
        context: C,
        changed: Seq<usize>,
    )
        requires
            self is Each,
            world.host.wf(),
            self.stands(world.host),
            self.updated(levels, world, context, changed).failure is None,
            fits(self.updated(levels, world, context, changed).world.host),
        ensures
            ({
                let after = self.updated(levels, world, context, changed).world.host;
                let old_fragments = self->mounted_fragments;
                let gone = rows_exposed(old_fragments, old_fragments.len());
                &&& fragments_detached(old_fragments, world.host, true, old_fragments.len()).1
                    is None
                &&& forall|node: NodeId|
                    world.host.has(node) ==> #[trigger] after.parent_of(node) == (if gone.contains(
                        node,
                    ) {
                        None
                    } else {
                        world.host.parent_of(node)
                    })
                &&& forall|node: NodeId|
                    world.host.has(node) ==> #[trigger] after.data_of(node) == world.host.data_of(
                        node,
                    )
                &&& forall|node: NodeId|
                    world.host.has(node) ==> others(
                        #[trigger] after.children_of(node),
                        gone,
                        world.host.nodes.len(),
                    ) == others(world.host.children_of(node), gone, world.host.nodes.len())
                &&& !gone.contains(self->Each_anchor)
                &&& after.parent_of(self->Each_anchor) == world.host.parent_of(self->Each_anchor)
            }),
    {
        let old_fragments = self->mounted_fragments;
        let anchor = self->Each_anchor;
        let count = old_fragments.len();
        let gone = rows_exposed(old_fragments, count);
        let items = context.items_of(self->get_items);
        lemma_rows_detach_succeed(old_fragments, world.host, count);
        lemma_rows_detached_unhook(old_fragments, world.host, count);
        let cleared = fragments_detached(old_fragments, world.host, true, count).0;
        self.lemma_rows_within(levels, world.on(cleared), context, anchor, items, items.len());
        let after = self.updated(levels, world, context, changed).world.host;
        lemma_rows_exposed_owned(old_fragments, count);
        assert(!rows_owned(old_fragments, count).contains(anchor));
        assert(world.host.has(anchor)) by {
            assert(self.owned().contains(anchor));
        }
        assert forall|node: NodeId| world.host.has(node) implies #[trigger] after.parent_of(node)
            == (if gone.contains(node) {
            None
        } else {
            world.host.parent_of(node)
        }) by {
            assert(cleared.has(node));
            assert(cleared.parent_of(node) == (if gone.contains(node) {
                None
            } else {
                world.host.parent_of(node)
            }));
        }
        assert forall|node: NodeId| world.host.has(node) implies #[trigger] after.data_of(node)
            == world.host.data_of(node) by {
            assert(cleared.has(node));
            assert(cleared.data_of(node) == world.host.data_of(node));
        }
        let count = world.host.nodes.len();
        assert forall|node: NodeId| world.host.has(node) implies others(
            #[trigger] after.children_of(node),
            gone,
            count,
        ) == others(world.host.children_of(node), gone, count) by {
            assert(cleared.has(node));
            lemma_others_coarser(
                after.children_of(node),
                cleared.children_of(node),
                Set::empty(),
                count,
                gone,
                count,
            );
        }
    }
}

} // verus!
