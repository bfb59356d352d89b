//! A mounted fragment hangs where it was mounted.
//!
//! What a fragment has at the top — its static nodes without a parent of their own, the
//! text nodes and anchors of its parts at the top, and the same of every fragment that these
//! parts show — hangs below the parent of the place where the fragment was mounted. A mount
//! makes it so, and every update that succeeds keeps it so. For a repeated block this says
//! where its rows are: below the parent of its anchor.

use vstd::prelude::*;
use crate::component::Component;
use crate::fragment::aside::fits;
use crate::fragment::builder::BuilderView;
use crate::fragment::liveness::{hosted, lemma_hosted_later, unmoved};
use crate::fragment::location::Location;
use crate::fragment::model::{fragments_detached, selects};
use crate::fragment::model::{ControllerView, FragmentView, PartView, World};
use crate::fragment::ownership::rows_owned;
use crate::host::model::{HostView, NodeId};

verus! {

/// Every fragment of the list hangs below `seat` with what it has at the top.
pub open spec fn rows_seated<C: Component>(
    fragments: Seq<FragmentView<C>>,
    host: HostView,
    seat: NodeId,
) -> bool
    decreases fragments, 0nat,
{
    forall|i: int| 0 <= i < fragments.len() ==> (#[trigger] fragments[i]).seated(host, seat)
}

impl<C: Component> FragmentView<C> {
    /// What a mounted fragment has at the top hangs below `seat`: its static nodes at the
    /// top are children of `seat`, and its parts at the top hang below `seat`.
    pub open spec fn seated(self, host: HostView, seat: NodeId) -> bool
        decreases self, 1nat,
    {
        self.mounted ==> {
            &&& forall|k: int|
                0 <= k < self.statics.len() && (#[trigger] self.statics[k]).0 is None
                    ==> host.parent_of(self.statics[k].1) == Some(seat)
            &&& forall|j: int|
                0 <= j < self.parts.len() && (#[trigger] self.parts[j]).0 is None
                    ==> self.parts[j].1.seated(host, seat)
        }
    }
}

impl<C: Component> PartView<C> {
    /// The part hangs below `seat`: its own node is a child of `seat`, and so is what the
    /// fragments that it shows have at the top.
    pub open spec fn seated(self, host: HostView, seat: NodeId) -> bool
        decreases self, 0nat,
    {
        match self {
            PartView::Updatable { text_node, .. } => host.parent_of(text_node) == Some(seat),
            PartView::Conditional { fragment, anchor, fragment_mounted, .. } => {
                &&& host.parent_of(anchor) == Some(seat)
                &&& fragment_mounted ==> fragment.seated(host, seat)
            },
            PartView::Each { mounted_fragments, anchor, .. } => {
                &&& host.parent_of(anchor) == Some(seat)
                &&& rows_seated(mounted_fragments, host, seat)
            },
            PartView::Component { controller, .. } => controller.fragment.seated(host, seat),
        }
    }
}

// ======================================================================================
// Where a fragment hangs is a matter of its own nodes
// ======================================================================================
pub proof fn lemma_rows_seated_unmoved<C: Component>(
    fragments: Seq<FragmentView<C>>,
    host: HostView,
    after: HostView,
    seat: NodeId,
)
    requires
        rows_seated(fragments, host, seat),
        unmoved(rows_owned(fragments, fragments.len()), host, after),
    ensures
        rows_seated(fragments, after, seat),
    decreases fragments, 0nat,
{
    assert forall|i: int| 0 <= i < fragments.len() implies (#[trigger] fragments[i]).seated(
        after,
        seat,
    ) by {
        assert forall|node: NodeId| fragments[i].owned().contains(node) implies #[trigger] after.parent_of(
            node,
        ) == host.parent_of(node) by {
            assert(rows_owned(fragments, fragments.len()).contains(node));
        }
        fragments[i].lemma_seated_unmoved(host, after, seat);
    }
}

impl<C: Component> FragmentView<C> {
    /// A fragment whose nodes have not moved hangs where it hung.
    pub proof fn lemma_seated_unmoved(self, host: HostView, after: HostView, seat: NodeId)
        requires
            self.seated(host, seat),
            unmoved(self.owned(), host, after),
        ensures
            self.seated(after, seat),
        decreases self, 1nat,
    {
        if self.mounted {
            assert forall|k: int|
                0 <= k < self.statics.len() && (#[trigger] self.statics[k]).0
                    is None implies after.parent_of(self.statics[k].1) == Some(seat) by {
                assert(self.own_statics(self.statics.len()).contains(self.statics[k].1));
                assert(self.owned().contains(self.statics[k].1));
            }
            assert forall|j: int|
                0 <= j < self.parts.len() && (#[trigger] self.parts[j]).0
                    is None implies self.parts[j].1.seated(after, seat) by {
                assert forall|node: NodeId| self.parts[j].1.owned().contains(
                    node,
                ) implies #[trigger] after.parent_of(node) == host.parent_of(node) by {
                    assert(self.parts_owned(self.parts.len()).contains(node));
                    assert(self.owned().contains(node));
                }
                self.parts[j].1.lemma_seated_unmoved(host, after, seat);
            }
        }
    }
}

impl<C: Component> PartView<C> {
    /// A part whose nodes have not moved hangs where it hung.
    pub proof fn lemma_seated_unmoved(self, host: HostView, after: HostView, seat: NodeId)
        requires
            self.seated(host, seat),
            unmoved(self.owned(), host, after),
        ensures
            self.seated(after, seat),
        decreases self, 0nat,
    {
        match self {
            PartView::Updatable { text_node, .. } => {
                assert(self.owned().contains(text_node));
            },
            PartView::Conditional { fragment, anchor, fragment_mounted, .. } => {
                assert(self.owned().contains(anchor));
                if fragment_mounted {
                    assert forall|node: NodeId| fragment.owned().contains(
                        node,
                    ) implies #[trigger] after.parent_of(node) == host.parent_of(node) by {
                        assert(self.owned().contains(node));
                    }
                    fragment.lemma_seated_unmoved(host, after, seat);
                }
            },
            PartView::Each { mounted_fragments, anchor, .. } => {
                assert(self.owned().contains(anchor));
                assert forall|node: NodeId|
                    rows_owned(mounted_fragments, mounted_fragments.len()).contains(
                        node,
                    ) implies #[trigger] after.parent_of(node) == host.parent_of(node) by {
                    assert(self.owned().contains(node));
                }
                lemma_rows_seated_unmoved(mounted_fragments, host, after, seat);
            },
            PartView::Component { controller, .. } => {
                controller.fragment.lemma_seated_unmoved(host, after, seat);
            },
        }
    }
}

/// A step that stays within some nodes moves no node of the host that is not among them.
pub proof fn lemma_apart_unmoved(
    nodes: Set<NodeId>,
    before: Set<NodeId>,
    owned: Set<NodeId>,
    host: HostView,
    after: HostView,
)
    requires
        crate::fragment::ownership::within(before, owned, host, after),
        hosted(nodes, host),
        nodes.disjoint(before),
    ensures
        unmoved(nodes, host, after),
{
    assert forall|node: NodeId| nodes.contains(node) implies #[trigger] after.parent_of(node)
        == host.parent_of(node) by {
        assert(host.has(node));
        assert(!before.contains(node));
    }
}

// ======================================================================================
// The nodes of the fragment itself
// ======================================================================================
impl<C: Component> FragmentView<C> {
    /// After the static nodes were mounted, those at the top hang below the parent of the
    /// place.
    pub proof fn lemma_statics_mounted_seat(self, host: HostView, at: Location, k: nat)
        requires
            host.wf(),
            k <= self.statics.len(),
            self.statics_mounted(host, at, k).1 is None,
            self.spread(),
        ensures
            forall|i: int|
                0 <= i < k && (#[trigger] self.statics[i]).0 is None ==> self.statics_mounted(
                    host,
                    at,
                    k,
                ).0.parent_of(self.statics[i].1) == Some(at.parent),
        decreases k,
    {
        if k > 0 {
            self.lemma_statics_mounted_seat(host, at, (k - 1) as nat);
            self.lemma_statics_mounted_keep(host, at, (k - 1) as nat);
            let (before, failure) = self.statics_mounted(host, at, (k - 1) as nat);
            let after = self.statics_mounted(host, at, k).0;
            let target = self.target(self.statics[k - 1].0, at);
            let node = self.statics[k - 1].1;
            crate::fragment::exposure::lemma_place_exposes(before, target, node, Set::empty(), 0);
            crate::fragment::ownership::lemma_place_within(before, target, node, set![node]);
            assert forall|i: int| 0 <= i < k && (#[trigger] self.statics[i]).0 is None implies after.parent_of(
                self.statics[i].1,
            ) == Some(at.parent) by {
                if i < k - 1 {
                    assert(self.statics[i].1 != self.statics[k - 1].1);
                    assert(before.parent_of(self.statics[i].1) == Some(at.parent));
                    assert(before.has(self.statics[i].1));
                    assert(after.parent_of(self.statics[i].1) == before.parent_of(
                        self.statics[i].1,
                    ));
                }
            }
        }
    }

    /// After a fragment was mounted, its static nodes at the top hang below the parent of
    /// the place.
    pub proof fn lemma_mounted_seat(self, levels: nat, host: HostView, at: Location)
        requires
            host.wf(),
            self.mounted_at(levels, host, at).2 is None,
            fits(self.mounted_at(levels, host, at).1),
            self.spread(),
        ensures
            self.mounted_at(levels, host, at).0.statics == self.statics,
            forall|i: int|
                0 <= i < self.statics.len() && (#[trigger] self.statics[i]).0 is None
                    ==> self.mounted_at(levels, host, at).1.parent_of(self.statics[i].1) == Some(
                    at.parent,
                ),
    {
        let count = self.statics.len();
        let parts = self.parts.len();
        let after = self.mounted_at(levels, host, at).1;
        self.lemma_statics_mounted_seat(host, at, count);
        self.lemma_statics_mounted_keep(host, at, count);
        let (placed, _) = self.statics_mounted(host, at, count);
        self.lemma_parts_mounted_within(levels, placed, at, parts, Set::empty());
        let ends = self.mount_ends(levels, placed, at);
        assert forall|i: int| 0 <= i < count && (#[trigger] self.statics[i]).0 is None implies after.parent_of(
            self.statics[i].1,
        ) == Some(at.parent) by {
            let node = self.statics[i].1;
            assert(placed.parent_of(node) == Some(at.parent));
            assert(placed.has(node));
            if self.owning(ends, 0).contains(node) {
                let j = choose|j: int|
                    0 <= j < self.parts.len() && (#[trigger] self.at_step(ends, 0, j)).owned().contains(
                        node,
                    );
                assert(self.at_step(ends, 0, j) == self.parts[j].1);
                assert(!self.parts[j].1.owned().contains(self.statics[i].1));
            }
            assert(!(self.owning(ends, 0) + Set::<NodeId>::empty()).contains(node));
        }
    }

    /// An update leaves the static nodes of the fragment where they hang.
    pub proof fn lemma_updated_seat(self, levels: nat, world: World, context: C, changed: Seq<usize>)
        requires
            world.host.wf(),
            self.spread(),
            self.updated(levels, world, context, changed).failure is None,
            fits(self.updated(levels, world, context, changed).world.host),
        ensures
            self.updated(levels, world, context, changed).state.statics == self.statics,
            forall|i: int|
                0 <= i < self.statics.len() && world.host.has((#[trigger] self.statics[i]).1)
                    ==> self.updated(levels, world, context, changed).world.host.parent_of(
                    self.statics[i].1,
                ) == world.host.parent_of(self.statics[i].1),
    {
        self.lemma_update_leaves_the_rest(levels, world, context, changed);
        let after = self.updated(levels, world, context, changed).world.host;
        assert forall|i: int|
            0 <= i < self.statics.len() && world.host.has(
                (#[trigger] self.statics[i]).1,
            ) implies after.parent_of(self.statics[i].1) == world.host.parent_of(
            self.statics[i].1,
        ) by {
            let node = self.statics[i].1;
            if self.reached(changed).contains(node) {
                let j = choose|j: int|
                    0 <= j < self.parts.len() && crate::fragment::model::selects(
                        self.dependencies,
                        changed,
                        j as usize,
                    ) && (#[trigger] self.parts[j]).1.owned().contains(node);
                assert(!self.parts[j].1.owned().contains(self.statics[i].1));
            }
        }
    }
}

impl<C: Component> PartView<C> {
    /// The part stands in the tree with a node of its own: it is a text binding, a
    /// conditional or a repeated block.
    pub open spec fn has_own_node(self) -> bool {
        !(self is Component)
    }

    /// An update leaves the part's own node where it hangs: a conditional and a repeated
    /// block move the nodes of their fragments only.
    pub proof fn lemma_updated_keeps_own_node(
        self,
        levels: nat,
        world: World,
        context: C,
        changed: Seq<usize>,
    )
        requires
            world.host.wf(),
            self.spread(),
            self.has_own_node(),
            world.host.has(self.own_node()),
            self.updated(levels, world, context, changed).failure is None,
            fits(self.updated(levels, world, context, changed).world.host),
        ensures
            self.updated(levels, world, context, changed).world.host.parent_of(self.own_node())
                == world.host.parent_of(self.own_node()),
            self.updated(levels, world, context, changed).state.own_node() == self.own_node(),
            self.updated(levels, world, context, changed).state.has_own_node(),
    {
        let step = self.updated(levels, world, context, changed);
        match self {
            PartView::Updatable { get_text, text_node } => {
                world.host.lemma_text_keeps_tree(text_node, context.text_of(get_text));
            },
            PartView::Conditional { check_condition, fragment, anchor, fragment_mounted } => {
                let shows = context.holds(check_condition);
                if shows && !fragment_mounted {
                    let at = Location::before(world.host, anchor)->Ok_0;
                    fragment.lemma_mounted_keeps((levels - 1) as nat, world.host, at);
                    let (nested, placed, failure) = fragment.mounted_at(
                        (levels - 1) as nat,
                        world.host,
                        at,
                    );
                    nested.lemma_updated_keeps(
                        (levels - 1) as nat,
                        world.on(placed),
                        context,
                        nested.known,
                    );
                    fragment.lemma_mounted_within((levels - 1) as nat, world.host, at);
                    nested.lemma_updated_within(
                        (levels - 1) as nat,
                        world.on(placed),
                        context,
                        nested.known,
                    );
                    assert(!fragment.owned().contains(anchor));
                    assert(!nested.owned().contains(anchor));
                    assert(placed.parent_of(anchor) == world.host.parent_of(anchor));
                    assert(placed.has(anchor));
                } else if !shows && fragment_mounted {
                    fragment.lemma_detached_within(world.host);
                } else if shows {
                    fragment.lemma_updated_within((levels - 1) as nat, world, context, changed);
                }
            },
            PartView::Each { get_items, mounted_fragments, anchor } => {
                let count = mounted_fragments.len();
                crate::fragment::exposure::lemma_rows_detached_unhook(
                    mounted_fragments,
                    world.host,
                    count,
                );
                crate::fragment::ownership::lemma_rows_exposed_owned(mounted_fragments, count);
                let cleared = fragments_detached(mounted_fragments, world.host, true, count).0;
                let items = context.items_of(get_items);
                self.lemma_rows_within(
                    levels,
                    world.on(cleared),
                    context,
                    anchor,
                    items,
                    items.len(),
                );
                assert(!crate::fragment::exposure::rows_exposed(mounted_fragments, count).contains(
                    anchor,
                ));
                assert(cleared.parent_of(anchor) == world.host.parent_of(anchor));
                assert(cleared.has(anchor));
            },
            PartView::Component { .. } => {},
        }
    }
}

// ======================================================================================
// A mount seats the fragment, and an update keeps it seated
// ======================================================================================
impl<C: Component> FragmentView<C> {
    proof fn lemma_part_of(self, host: HostView, i: int)
        requires
            0 <= i < self.parts.len(),
            hosted(self.owned(), host),
        ensures
            hosted(self.parts[i].1.owned(), host),
    {
        assert forall|node: NodeId| #[trigger] self.parts[i].1.owned().contains(node) implies host.has(
            node,
        ) by {
            assert(self.parts_owned(self.parts.len()).contains(node));
            assert(self.owned().contains(node));
        }
    }

    /// After the parts were mounted, those at the top hang below the parent of the place.
    pub proof fn lemma_parts_mounted_seated(
        self,
        levels: nat,
        host: HostView,
        at: Location,
        j: nat,
    )
        requires
            host.wf(),
            j <= self.parts.len(),
            self.parts_mounted(levels, host, at, j).1 is None,
            fits(self.parts_mounted(levels, host, at, j).0),
            self.spread(),
            hosted(self.owned(), host),
            self.rested(),
        ensures
            forall|i: int|
                0 <= i < j && (#[trigger] self.parts[i]).0 is None ==> self.part_mounted(
                    levels,
                    host,
                    at,
                    i,
                ).seated(self.parts_mounted(levels, host, at, j).0, at.parent),
        decreases levels, self, 0nat, j,
    {
        if j > 0 {
            let (before, failure) = self.parts_mounted(levels, host, at, (j - 1) as nat);
            let after = self.parts_mounted(levels, host, at, j).0;
            let part = self.parts[j - 1].1;
            let target = self.target(self.parts[j - 1].0, at)->Ok_0;
            self.lemma_part_mounted_at(levels, host, at, j - 1, j);
            self.lemma_parts_mounted_stand(levels, host, at, (j - 1) as nat);
            self.lemma_parts_mounted_seated(levels, host, at, (j - 1) as nat);
            self.lemma_part_of(host, j - 1);
            lemma_hosted_later(part.owned(), host, before);
            assert forall|i: int|
                0 <= i < j && (#[trigger] self.parts[i]).0 is None implies self.part_mounted(
                levels,
                host,
                at,
                i,
            ).seated(after, at.parent) by {
                if i == j - 1 {
                    part.lemma_mounted_seated(levels, before, at);
                } else {
                    let earlier = self.part_mounted(levels, host, at, i);
                    self.lemma_part_mounted_at(levels, host, at, i, j);
                    assert(earlier.stands(before));
                    assert forall|node: NodeId| earlier.owned().contains(
                        node,
                    ) implies !part.owned().contains(node) by {
                        if self.parts[i].1.owned().contains(node) {
                            assert(self.parts[i].1.owned().disjoint(self.parts[j - 1].1.owned()));
                        } else if part.owned().contains(node) {
                            assert(host.has(node));
                        }
                    }
                    lemma_apart_unmoved(
                        earlier.owned(),
                        part.owned(),
                        self.part_mounted(levels, host, at, j - 1).owned(),
                        before,
                        after,
                    );
                    earlier.lemma_seated_unmoved(before, after, at.parent);
                }
            }
        }
    }

    /// Mounting seats a fragment: what it has at the top hangs below the parent of the
    /// place.
    pub proof fn lemma_mounted_seated(self, levels: nat, host: HostView, at: Location)
        requires
            host.wf(),
            self.mounted_at(levels, host, at).2 is None,
            fits(self.mounted_at(levels, host, at).1),
            self.spread(),
            hosted(self.owned(), host),
            self.rested(),
        ensures
            self.mounted_at(levels, host, at).0.seated(
                self.mounted_at(levels, host, at).1,
                at.parent,
            ),
        decreases levels, self, 1nat, 0nat,
    {
        let count = self.statics.len();
        let (done, after, _) = self.mounted_at(levels, host, at);
        self.lemma_mounted_seat(levels, host, at);
        self.lemma_statics_mounted_keep(host, at, count);
        let (placed, _) = self.statics_mounted(host, at, count);
        lemma_hosted_later(self.owned(), host, placed);
        self.lemma_parts_mounted_seated(levels, placed, at, self.parts.len());
        assert forall|j: int|
            0 <= j < done.parts.len() && (#[trigger] done.parts[j]).0
                is None implies done.parts[j].1.seated(after, at.parent) by {
            assert(done.parts[j].1 == self.part_mounted(levels, placed, at, j));
            assert(self.parts[j].0 is None);
        }
    }

    /// Updating the parts one after the other keeps those at the top seated.
    pub proof fn lemma_parts_updated_seated(
        self,
        levels: nat,
        world: World,
        context: C,
        changed: Seq<usize>,
        j: nat,
        seat: NodeId,
    )
        requires
            world.host.wf(),
            j <= self.parts.len(),
            self.parts_updated(levels, world, context, changed, j).1 is None,
            fits(self.parts_updated(levels, world, context, changed, j).0.host),
            self.mounted,
            self.stands(world.host),
            self.seated(world.host, seat),
        ensures
            forall|i: int|
                0 <= i < j && (#[trigger] self.parts[i]).0 is None ==> self.part_updated(
                    levels,
                    world,
                    context,
                    changed,
                    i,
                ).seated(self.parts_updated(levels, world, context, changed, j).0.host, seat),
            forall|i: int|
                j <= i < self.parts.len() && (#[trigger] self.parts[i]).0 is None
                    ==> self.parts[i].1.seated(
                    self.parts_updated(levels, world, context, changed, j).0.host,
                    seat,
                ),
        decreases levels, self, 0nat, j,
    {
        if j > 0 {
            let (before, failure) = self.parts_updated(
                levels,
                world,
                context,
                changed,
                (j - 1) as nat,
            );
            let after = self.parts_updated(levels, world, context, changed, j).0;
            let part = self.parts[j - 1].1;
            self.lemma_part_updated_at(levels, world, context, changed, j - 1, j);
            self.lemma_parts_updated_stand(levels, world, context, changed, (j - 1) as nat);
            self.lemma_parts_updated_seated(levels, world, context, changed, (j - 1) as nat, seat);
            self.lemma_part_of(world.host, j - 1);
            if selects(self.dependencies, changed, (j - 1) as usize) {
                assert forall|i: int|
                    0 <= i < j && (#[trigger] self.parts[i]).0 is None implies self.part_updated(
                    levels,
                    world,
                    context,
                    changed,
                    i,
                ).seated(after.host, seat) by {
                    if i == j - 1 {
                        part.lemma_updated_seated(levels, before, context, changed, seat);
                    } else {
                        let earlier = self.part_updated(levels, world, context, changed, i);
                        self.lemma_part_updated_at(levels, world, context, changed, i, j);
                        assert(earlier.stands(before.host));
                        assert forall|node: NodeId| earlier.owned().contains(
                            node,
                        ) implies !part.owned().contains(node) by {
                            if self.parts[i].1.owned().contains(node) {
                                assert(self.parts[i].1.owned().disjoint(
                                    self.parts[j - 1].1.owned(),
                                ));
                            } else if part.owned().contains(node) {
                                assert(world.host.has(node));
                            }
                        }
                        lemma_apart_unmoved(
                            earlier.owned(),
                            part.owned(),
                            self.part_updated(levels, world, context, changed, j - 1).owned(),
                            before.host,
                            after.host,
                        );
                        earlier.lemma_seated_unmoved(before.host, after.host, seat);
                    }
                }
                assert forall|i: int|
                    j <= i < self.parts.len() && (#[trigger] self.parts[i]).0
                        is None implies self.parts[i].1.seated(after.host, seat) by {
                    let later = self.parts[i].1;
                    assert(later.stands(before.host));
                    assert(later.owned().disjoint(self.parts[j - 1].1.owned()));
                    lemma_apart_unmoved(
                        later.owned(),
                        part.owned(),
                        self.part_updated(levels, world, context, changed, j - 1).owned(),
                        before.host,
                        after.host,
                    );
                    later.lemma_seated_unmoved(before.host, after.host, seat);
                }
            }
        }
    }

    /// An update keeps a fragment in good standing seated.
    pub proof fn lemma_updated_seated(
        self,
        levels: nat,
        world: World,
        context: C,
        changed: Seq<usize>,
        seat: NodeId,
    )
        requires
            world.host.wf(),
            self.updated(levels, world, context, changed).failure is None,
            fits(self.updated(levels, world, context, changed).world.host),
            self.stands(world.host),
            self.seated(world.host, seat),
        ensures
            self.updated(levels, world, context, changed).state.seated(
                self.updated(levels, world, context, changed).world.host,
                seat,
            ),
        decreases levels, self, 1nat, 0nat,
    {
        let step = self.updated(levels, world, context, changed);
        if self.mounted {
            self.lemma_updated_seat(levels, world, context, changed);
            self.lemma_parts_updated_seated(
                levels,
                world,
                context,
                changed,
                self.parts.len(),
                seat,
            );
            assert forall|k: int|
                0 <= k < step.state.statics.len() && (#[trigger] step.state.statics[k]).0
                    is None implies step.world.host.parent_of(step.state.statics[k].1) == Some(
                seat,
            ) by {
                assert(self.statics[k].0 is None);
                assert(self.own_statics(self.statics.len()).contains(self.statics[k].1));
                assert(self.owned().contains(self.statics[k].1));
            }
            assert forall|j: int|
                0 <= j < step.state.parts.len() && (#[trigger] step.state.parts[j]).0
                    is None implies step.state.parts[j].1.seated(step.world.host, seat) by {
                assert(step.state.parts[j].1 == self.part_updated(levels, world, context, changed, j));
                assert(self.parts[j].0 is None);
            }
        }
    }
}

impl<C: Component> BuilderView<C> {
    /// A fragment hangs where it is mounted. Whatever a builder describes: if the fragment
    /// that it builds can be mounted, then what the fragment has at the top hangs below the
    /// parent of the place afterwards.
    pub proof fn lemma_built_mounts_seated(self, levels: nat, world: World, depth: nat, at: Location)
        requires
            world.host.wf(),
            self.built(levels, world).failure is None,
            self.built(levels, world).state.mounted_at(
                depth,
                self.built(levels, world).world.host,
                at,
            ).2 is None,
            fits(
                self.built(levels, world).state.mounted_at(
                    depth,
                    self.built(levels, world).world.host,
                    at,
                ).1,
            ),
        ensures
            ({
                let built = self.built(levels, world);
                let (mounted, placed, _) = built.state.mounted_at(depth, built.world.host, at);
                mounted.mounted && mounted.seated(placed, at.parent)
            }),
    {
        let built = self.built(levels, world);
        self.lemma_built(levels, world);
        built.state.lemma_mounted_keeps(depth, built.world.host, at);
        self.lemma_built_spread(levels, world);
        self.lemma_built_rests(levels, world);
        built.state.lemma_mounted_seated(depth, built.world.host, at);
    }
}

impl<C: Component> ControllerView<C> {
    /// Mounting a controller seats its fragment.
    pub proof fn lemma_mounted_seated(self, levels: nat, host: HostView, at: Location)
        requires
            host.wf(),
            self.mounted_at(levels, host, at).failure is None,
            fits(self.mounted_at(levels, host, at).world.host),
            self.fragment.spread(),
            hosted(self.fragment.owned(), host),
            self.fragment.rested(),
        ensures
            self.mounted_at(levels, host, at).state.fragment.seated(
                self.mounted_at(levels, host, at).world.host,
                at.parent,
            ),
        decreases levels + 1, self, 0nat, 0nat,
    {
        self.fragment.lemma_mounted_keeps(levels, host, at);
        let (fragment, placed, failure) = self.fragment.mounted_at(levels, host, at);
        let world = World { host: placed, registry: self.registry };
        fragment.lemma_updated_keeps(levels, world, self.component, fragment.known);
        self.fragment.lemma_mounted_stands(levels, host, at);
        self.fragment.lemma_mounted_seated(levels, host, at);
        fragment.lemma_updated_seated(levels, world, self.component, fragment.known, at.parent);
    }
}

impl<C: Component> PartView<C> {
    /// Mounting seats a part.
    pub proof fn lemma_mounted_seated(self, levels: nat, host: HostView, at: Location)
        requires
            host.wf(),
            self.mounted_at(levels, host, at).2 is None,
            fits(self.mounted_at(levels, host, at).1),
            self.spread(),
            hosted(self.owned(), host),
            self.rested(),
        ensures
            self.mounted_at(levels, host, at).0.seated(
                self.mounted_at(levels, host, at).1,
                at.parent,
            ),
        decreases levels, self, 1nat, 0nat,
    {
        match self {
            PartView::Updatable { text_node, .. } => {
                crate::fragment::exposure::lemma_place_exposes(
                    host,
                    Ok(at),
                    text_node,
                    Set::empty(),
                    0,
                );
            },
            PartView::Conditional { anchor, .. } => {
                crate::fragment::exposure::lemma_place_exposes(host, Ok(at), anchor, Set::empty(), 0);
            },
            PartView::Each { anchor, .. } => {
                crate::fragment::exposure::lemma_place_exposes(host, Ok(at), anchor, Set::empty(), 0);
            },
            PartView::Component { controller, .. } => {
                controller.lemma_mounted_seated((levels - 1) as nat, host, at);
            },
        }
    }

    /// A new row hangs below the parent of the anchor.
    pub proof fn lemma_row_seated(
        self,
        levels: nat,
        world: World,
        context: C,
        anchor: NodeId,
        item: BuilderView<C>,
    )
        requires
            world.host.wf(),
            self.row(levels, world, context, anchor, item).failure is None,
            fits(self.row(levels, world, context, anchor, item).world.host),
        ensures
            world.host.parent_of(anchor) is Some,
            self.row(levels, world, context, anchor, item).state.seated(
                self.row(levels, world, context, anchor, item).world.host,
                world.host.parent_of(anchor)->0,
            ),
        decreases levels, self, 0nat, 0nat,
    {
        let at = Location::before(world.host, anchor)->Ok_0;
        item.lemma_built((levels - 1) as nat, world);
        let made = item.built((levels - 1) as nat, world);
        made.state.lemma_mounted_keeps((levels - 1) as nat, made.world.host, at);
        let (fragment, placed, failure) = made.state.mounted_at(
            (levels - 1) as nat,
            made.world.host,
            at,
        );
        let mounted = made.world.on(placed);
        fragment.lemma_updated_keeps((levels - 1) as nat, mounted, context, fragment.known);
        item.lemma_built_spread((levels - 1) as nat, world);
        item.lemma_built_rests((levels - 1) as nat, world);
        made.state.lemma_mounted_stands((levels - 1) as nat, made.world.host, at);
        made.state.lemma_mounted_seated((levels - 1) as nat, made.world.host, at);
        fragment.lemma_updated_seated(
            (levels - 1) as nat,
            mounted,
            context,
            fragment.known,
            at.parent,
        );
    }

    /// The new rows hang below the parent of the anchor, and the anchor stays where it
    /// hangs.
    pub proof fn lemma_rows_seated(
        self,
        levels: nat,
        world: World,
        context: C,
        anchor: NodeId,
        items: Seq<BuilderView<C>>,
        k: nat,
    )
        requires
            world.host.wf(),
            k <= items.len(),
            world.host.parent_of(anchor) is Some,
            self.rows(levels, world, context, anchor, items, k).failure is None,
            fits(self.rows(levels, world, context, anchor, items, k).world.host),
        ensures
            self.rows(levels, world, context, anchor, items, k).world.host.parent_of(anchor)
                == world.host.parent_of(anchor),
            rows_seated(
                self.rows(levels, world, context, anchor, items, k).state,
                self.rows(levels, world, context, anchor, items, k).world.host,
                world.host.parent_of(anchor)->0,
            ),
        decreases levels, self, 0nat, k + 1,
    {
        let seat = world.host.parent_of(anchor)->0;
        if k > 0 {
            let before = self.rows(levels, world, context, anchor, items, (k - 1) as nat);
            let done = self.rows(levels, world, context, anchor, items, k);
            let made = self.row(levels, before.world, context, anchor, items[k - 1]);
            self.lemma_rows_keep(levels, world, context, anchor, items, (k - 1) as nat);
            self.lemma_row_keeps(levels, before.world, context, anchor, items[k - 1]);
            self.lemma_rows_seated(levels, world, context, anchor, items, (k - 1) as nat);
            self.lemma_rows_within(levels, world, context, anchor, items, (k - 1) as nat);
            self.lemma_row_within(levels, before.world, context, anchor, items[k - 1]);
            self.lemma_row_seated(levels, before.world, context, anchor, items[k - 1]);
            assert(world.host.has(anchor));
            assert(before.world.host.has(anchor));
            assert forall|i: int| 0 <= i < done.state.len() implies (#[trigger] done.state[i]).seated(
                done.world.host,
                seat,
            ) by {
                if i < before.state.len() {
                    assert(done.state[i] == before.state[i]);
                    assert forall|node: NodeId| before.state[i].owned().contains(
                        node,
                    ) implies #[trigger] done.world.host.parent_of(node)
                        == before.world.host.parent_of(node) by {
                        assert(rows_owned(before.state, (k - 1) as nat).contains(node));
                        assert(before.world.host.has(node));
                        assert(!Set::<NodeId>::empty().contains(node));
                    }
                    before.state[i].lemma_seated_unmoved(before.world.host, done.world.host, seat);
                } else {
                    assert(done.state[i] == made.state);
                }
            }
        }
    }

    /// An update keeps a part in good standing seated.
    pub proof fn lemma_updated_seated(
        self,
        levels: nat,
        world: World,
        context: C,
        changed: Seq<usize>,
        seat: NodeId,
    )
        requires
            world.host.wf(),
            self.updated(levels, world, context, changed).failure is None,
            fits(self.updated(levels, world, context, changed).world.host),
            self.stands(world.host),
            self.seated(world.host, seat),
        ensures
            self.updated(levels, world, context, changed).state.seated(
                self.updated(levels, world, context, changed).world.host,
                seat,
            ),
        decreases levels, self, 1nat, 0nat,
    {
        let step = self.updated(levels, world, context, changed);
        if self.has_own_node() {
            assert(self.owned().contains(self.own_node()));
            self.lemma_updated_keeps_own_node(levels, world, context, changed);
        }
        match self {
            PartView::Updatable { .. } => {},
            PartView::Conditional { check_condition, fragment, anchor, fragment_mounted } => {
                let shows = context.holds(check_condition);
                assert forall|node: NodeId| #[trigger] fragment.owned().contains(node) implies world.host.has(
                    node,
                ) by {
                    assert(self.owned().contains(node));
                }
                if shows && !fragment_mounted {
                    let at = Location::before(world.host, anchor)->Ok_0;
                    fragment.lemma_mounted_keeps((levels - 1) as nat, world.host, at);
                    let (nested, placed, failure) = fragment.mounted_at(
                        (levels - 1) as nat,
                        world.host,
                        at,
                    );
                    nested.lemma_updated_keeps(
                        (levels - 1) as nat,
                        world.on(placed),
                        context,
                        nested.known,
                    );
                    fragment.lemma_mounted_stands((levels - 1) as nat, world.host, at);
                    fragment.lemma_mounted_seated((levels - 1) as nat, world.host, at);
                    nested.lemma_updated_seated(
                        (levels - 1) as nat,
                        world.on(placed),
                        context,
                        nested.known,
                        seat,
                    );
                } else if shows && fragment_mounted {
                    fragment.lemma_updated_seated((levels - 1) as nat, world, context, changed, seat);
                }
            },
            PartView::Each { get_items, mounted_fragments, anchor } => {
                let count = mounted_fragments.len();
                crate::fragment::liveness::lemma_rows_detach_succeed(
                    mounted_fragments,
                    world.host,
                    count,
                );
                crate::fragment::exposure::lemma_rows_detached_unhook(
                    mounted_fragments,
                    world.host,
                    count,
                );
                crate::fragment::ownership::lemma_rows_exposed_owned(mounted_fragments, count);
                let cleared = fragments_detached(mounted_fragments, world.host, true, count).0;
                let items = context.items_of(get_items);
                assert(cleared.parent_of(anchor) == world.host.parent_of(anchor));
                self.lemma_rows_seated(
                    levels,
                    world.on(cleared),
                    context,
                    anchor,
                    items,
                    items.len(),
                );
            },
            PartView::Component { controller, update } => {
                assert forall|node: NodeId| #[trigger]
                    controller.fragment.owned().contains(node) implies world.host.has(node) by {
                    assert(self.owned().contains(node));
                }
                match context.passed_on(update, controller.component, changed) {
                    Some(ids) => {
                        controller.fragment.lemma_updated_seated(
                            (levels - 1) as nat,
                            World { host: world.host, registry: controller.registry },
                            context.adapted(update, controller.component, changed),
                            ids,
                            seat,
                        );
                    },
                    None => {},
                }
            },
        }
    }

    /// Where the new rows are. After an update of a repeated block in good standing that
    /// succeeds, every new fragment hangs below the parent of the anchor with all that it
    /// has at the top: its static nodes, the text nodes and anchors of its parts, and what
    /// the fragments that these parts show have at the top. With
    /// [`PartView::lemma_each_rows_in_order`] this places the rows: they stand in front of
    /// the anchor, row by row in the order of the items.
    pub proof fn lemma_each_rows_seated(
        self,
        levels: nat,
        world: World,
        context: C,
        changed: Seq<usize>,
    )
        requires
            self is Each,
            world.host.wf(),
            self.stands(world.host),
            self.updated(levels, world, context, changed).failure is None,
            fits(self.updated(levels, world, context, changed).world.host),
        ensures
            ({
                let step = self.updated(levels, world, context, changed);
                &&& step.state is Each
                &&& world.host.parent_of(self->Each_anchor) is Some
                &&& step.world.host.parent_of(self->Each_anchor) == world.host.parent_of(
                    self->Each_anchor,
                )
                &&& rows_seated(
                    step.state->mounted_fragments,
                    step.world.host,
                    world.host.parent_of(self->Each_anchor)->0,
                )
            }),
    {
        let anchor = self->Each_anchor;
        let old_fragments = self->mounted_fragments;
        let items = context.items_of(self->get_items);
        self.lemma_each_clears_old_rows(levels, world, context, changed);
        crate::fragment::exposure::lemma_rows_detached_unhook(
            old_fragments,
            world.host,
            old_fragments.len(),
        );
        let cleared = fragments_detached(old_fragments, world.host, true, old_fragments.len()).0;
        assert(world.host.has(anchor)) by {
            assert(self.owned().contains(anchor));
        }
        assert(cleared.parent_of(anchor) == world.host.parent_of(anchor));
        self.lemma_rows_seated(levels, world.on(cleared), context, anchor, items, items.len());
    }
}

} // verus!
