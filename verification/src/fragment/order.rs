//! New nodes queue up in front of an anchor.
//!
//! A fragment puts its nodes into the tree in front of the anchor that it is mounted at, and
//! everything that it inserts later goes in front of a node of its own. So under a parent
//! that was there before the fragment, the nodes of the fragment stand in one unbroken run
//! that ends at the anchor, however the fragment is mounted, updated and detached. For the
//! rows of a repeated block this gives their order: each row is a run of its own, the runs
//! follow each other in the order of the items, and the last ends at the anchor of the
//! block.

use vstd::prelude::*;
use crate::component::Component;
use crate::fragment::aside::{fits, lemma_fragments_detached_aside, undisturbed};
use crate::fragment::aside::{lemma_grown_is_undisturbed, lemma_place_aside, lemma_unhook_aside};
use crate::fragment::builder::BuilderView;
use crate::fragment::frame::lemma_fragments_detached_keep;
use crate::fragment::growth::grown;
use crate::fragment::location::Location;
use crate::fragment::model::{fragments_detached, place, unhook};
use crate::fragment::model::{ControllerView, FragmentView, PartView, World};
use crate::host::model::{Failure, HostView, NodeId};

verus! {

/// In `kids`, every node with a handle from `floor` on is followed by another such node or
/// by `queue`: the nodes from `floor` on stand in one run, and `queue` ends it.
pub open spec fn lined(kids: Seq<NodeId>, queue: NodeId, floor: nat) -> bool {
    forall|t: int|
        0 <= t < kids.len() && (#[trigger] kids[t]) >= floor ==> t + 1 < kids.len() && (kids[t + 1]
            >= floor || kids[t + 1] == queue)
}

/// Among the children of `parent`, the nodes from `floor` on stand in one run that ends at
/// `queue`.
pub open spec fn queued(host: HostView, parent: NodeId, queue: NodeId, floor: nat) -> bool {
    lined(host.children_of(parent), queue, floor)
}

/// A step from `before` to `after` keeps the run under `parent`, a node from before `floor`.
pub open spec fn stays(
    before: HostView,
    after: HostView,
    floor: nat,
    parent: NodeId,
    queue: NodeId,
) -> bool {
    parent < floor && queued(before, parent, queue, floor) ==> queued(after, parent, queue, floor)
}

/// Mounting at `at` adds to the run under `parent` only: `at` is not under `parent`, or it
/// is in front of `queue` or of a node from `floor` on.
pub open spec fn admits(at: Location, parent: NodeId, queue: NodeId, floor: nat) -> bool {
    parent < floor && at.parent == parent ==> match at.anchor {
        Some(anchor) => anchor == queue || anchor >= floor,
        None => false,
    }
}

pub proof fn lemma_lined_remove(kids: Seq<NodeId>, queue: NodeId, floor: nat, at: int)
    requires
        lined(kids, queue, floor),
        0 <= at < kids.len(),
        kids[at] >= floor,
    ensures
        lined(kids.remove(at), queue, floor),
{
    let rest = kids.remove(at);
    assert forall|t: int| 0 <= t < rest.len() && (#[trigger] rest[t]) >= floor implies t + 1
        < rest.len() && (rest[t + 1] >= floor || rest[t + 1] == queue) by {
        if t + 1 < at {
            assert(kids[t] >= floor);
        } else if t + 1 == at {
            assert(kids[t] >= floor);
            assert(kids[at] >= floor);
        } else {
            assert(kids[t + 1] >= floor);
        }
    }
}

pub proof fn lemma_lined_insert(kids: Seq<NodeId>, queue: NodeId, floor: nat, at: int, node: NodeId)
    requires
        lined(kids, queue, floor),
        0 <= at < kids.len(),
        kids[at] >= floor || kids[at] == queue,
        node >= floor,
    ensures
        lined(kids.insert(at, node), queue, floor),
{
    let more = kids.insert(at, node);
    assert forall|t: int| 0 <= t < more.len() && (#[trigger] more[t]) >= floor implies t + 1
        < more.len() && (more[t + 1] >= floor || more[t + 1] == queue) by {
        if t + 1 < at {
            assert(kids[t] >= floor);
        } else if t + 1 == at {
        } else if t == at {
        } else {
            assert(kids[t - 1] >= floor);
        }
    }
}

/// Building keeps every run: it changes no child list.
pub proof fn lemma_grown_queue(
    before: HostView,
    after: HostView,
    floor: nat,
    parent: NodeId,
    queue: NodeId,
)
    requires
        grown(before, after),
    ensures
        undisturbed(before, after, floor),
        stays(before, after, floor, parent, queue),
{
    lemma_grown_is_undisturbed(before, after, floor);
    if parent < after.nodes.len() {
        let now = after.nodes[parent as int];
    }
}

impl HostView {
    /// Inserting a node from `floor` on at a place that the run admits keeps the run.
    pub proof fn lemma_insert_queue(
        self,
        target: NodeId,
        node: NodeId,
        anchor: Option<NodeId>,
        floor: nat,
        parent: NodeId,
        queue: NodeId,
    )
        requires
            self.wf(),
            node >= floor,
            self.insert_failure(target, node, anchor) is None,
            admits(Location { parent: target, anchor }, parent, queue, floor),
        ensures
            stays(self, self.inserted(target, node, anchor), floor, parent, queue),
    {
        self.lemma_insert_keeps_tree(target, node, anchor);
        let after = self.inserted(target, node, anchor);
        if anchor != Some(node) && parent < floor && queued(self, parent, queue, floor) && self.has(
            parent,
        ) {
            self.lemma_unlinked(node);
            let cut = self.unlinked(node);
            let at = cut.position(target, anchor);
            match anchor {
                Some(a) => {
                    assert(cut.parent_of(a) == self.parent_of(a));
                    assert(cut.node_wf(a));
                    assert(cut.nodes[target as int].children.contains(a));
                },
                None => {},
            }
            cut.lemma_linked(target, node, at);
            assert(lined(cut.children_of(parent), queue, floor)) by {
                if Some(parent) == self.parent_of(node) {
                    let kids = self.nodes[parent as int].children;
                    assert(self.node_wf(node));
                    assert(kids.contains(node));
                    let gone = kids.index_of(node);
                    assert(cut.children_of(parent) == kids.remove(gone));
                    lemma_lined_remove(kids, queue, floor, gone);
                } else {
                    assert(cut.children_of(parent) == self.children_of(parent));
                }
            }
            if parent == target {
                assert(after.children_of(parent) == cut.children_of(parent).insert(at, node));
                lemma_lined_insert(cut.children_of(parent), queue, floor, at, node);
            } else {
                assert(cut.linked(target, node, at).children_of(parent) == cut.children_of(parent));
                assert(after.children_of(parent) == cut.children_of(parent));
            }
        }
    }

    /// Removing a node from `floor` on keeps every run.
    pub proof fn lemma_remove_queue(
        self,
        target: NodeId,
        node: NodeId,
        floor: nat,
        parent: NodeId,
        queue: NodeId,
    )
        requires
            self.wf(),
            node >= floor,
            self.remove_failure(target, node) is None,
        ensures
            stays(self, self.removed(target, node), floor, parent, queue),
    {
        self.lemma_remove_keeps_tree(target, node);
        self.lemma_unlinked(node);
        let cut = self.unlinked(node);
        let after = self.removed(target, node);
        if parent < floor && queued(self, parent, queue, floor) && self.has(parent) {
            if parent == target {
                let kids = self.nodes[parent as int].children;
                assert(self.node_wf(node));
                assert(kids.contains(node));
                let gone = kids.index_of(node);
                assert(after.children_of(parent) == kids.remove(gone));
                lemma_lined_remove(kids, queue, floor, gone);
            } else {
                assert(cut.children_of(parent) == self.children_of(parent));
            }
        }
    }

    /// Overwriting a text keeps every run.
    pub proof fn lemma_text_queue(
        self,
        node: NodeId,
        content: Seq<char>,
        floor: nat,
        parent: NodeId,
        queue: NodeId,
    )
        requires
            self.wf(),
            self.text_failure(node) is None,
        ensures
            undisturbed(self, self.text_set(node, content), floor),
            stays(self, self.text_set(node, content), floor, parent, queue),
    {
        self.lemma_text_aside(node, content, floor);
        self.lemma_text_keeps_tree(node, content);
        let after = self.text_set(node, content);
        assert(after.children_of(parent) == self.children_of(parent));
    }
}

pub proof fn lemma_place_queue(
    host: HostView,
    target: Result<Location, Failure>,
    node: NodeId,
    floor: nat,
    parent: NodeId,
    queue: NodeId,
)
    requires
        host.wf(),
        node >= floor,
        target matches Ok(at) ==> admits(at, parent, queue, floor),
    ensures
        undisturbed(host, place(host, target, node).0, floor),
        stays(host, place(host, target, node).0, floor, parent, queue),
{
    lemma_place_aside(host, target, node, floor);
    match target {
        Ok(at) => {
            if host.insert_failure(at.parent, node, at.anchor) is None {
                host.lemma_insert_queue(at.parent, node, at.anchor, floor, parent, queue);
            }
        },
        Err(_) => {},
    }
}

pub proof fn lemma_unhook_queue(
    host: HostView,
    node: NodeId,
    floor: nat,
    parent: NodeId,
    queue: NodeId,
)
    requires
        host.wf(),
        node >= floor,
    ensures
        undisturbed(host, unhook(host, node).0, floor),
        stays(host, unhook(host, node).0, floor, parent, queue),
{
    lemma_unhook_aside(host, node, floor);
    match host.parent_of(node) {
        Some(target) => {
            if host.remove_failure(target, node) is None {
                host.lemma_remove_queue(target, node, floor, parent, queue);
            }
        },
        None => {},
    }
}

impl<C: Component> FragmentView<C> {
    /// Where the run admits the place of a fragment, it admits the place of each of its
    /// static nodes and parts.
    pub proof fn lemma_target_admits(self, at: Location, floor: nat, parent: NodeId, queue: NodeId)
        requires
            self.above(floor),
            admits(at, parent, queue, floor),
        ensures
            forall|location: Option<usize>|
                (#[trigger] self.target(location, at)) matches Ok(to) ==> admits(
                    to,
                    parent,
                    queue,
                    floor,
                ),
    {
        assert forall|location: Option<usize>|
            (#[trigger] self.target(location, at)) is Ok implies admits(
            self.target(location, at)->Ok_0,
            parent,
            queue,
            floor,
        ) by {
            match location {
                Some(index) => {
                    if index < self.statics.len() {
                        assert(self.statics[index as int].1 >= floor);
                    }
                },
                None => {},
            }
        }
    }
}

// ======================================================================================
// Detaching keeps the run
// ======================================================================================
pub proof fn lemma_fragments_detached_queue<C: Component>(
    fragments: Seq<FragmentView<C>>,
    host: HostView,
    top_level: bool,
    k: nat,
    floor: nat,
    parent: NodeId,
    queue: NodeId,
)
    requires
        host.wf(),
        forall|i: int| 0 <= i < fragments.len() ==> (#[trigger] fragments[i]).above(floor),
    ensures
        undisturbed(host, fragments_detached(fragments, host, top_level, k).0, floor),
        stays(host, fragments_detached(fragments, host, top_level, k).0, floor, parent, queue),
    decreases fragments, 0nat, k,
{
    lemma_fragments_detached_aside(fragments, host, top_level, k, floor);
    if !(k == 0 || k > fragments.len()) {
        lemma_fragments_detached_queue(
            fragments,
            host,
            top_level,
            (k - 1) as nat,
            floor,
            parent,
            queue,
        );
        let (before, failure) = fragments_detached(fragments, host, top_level, (k - 1) as nat);
        if failure is None {
            fragments[k - 1].lemma_detached_queue(before, top_level, floor, parent, queue);
        }
    }
}

impl<C: Component> FragmentView<C> {
    pub proof fn lemma_statics_detached_queue(
        self,
        host: HostView,
        k: nat,
        floor: nat,
        parent: NodeId,
        queue: NodeId,
    )
        requires
            host.wf(),
            self.above(floor),
        ensures
            undisturbed(host, self.statics_detached(host, k).0, floor),
            stays(host, self.statics_detached(host, k).0, floor, parent, queue),
        decreases k,
    {
        self.lemma_statics_detached_aside(host, k, floor);
        if !(k == 0 || k > self.statics.len()) {
            self.lemma_statics_detached_queue(host, (k - 1) as nat, floor, parent, queue);
            let (before, failure) = self.statics_detached(host, (k - 1) as nat);
            if failure is None && self.statics[k - 1].0 is None {
                lemma_unhook_queue(before, self.statics[k - 1].1, floor, parent, queue);
            }
        }
    }

    pub proof fn lemma_parts_detached_queue(
        self,
        host: HostView,
        top_level: bool,
        j: nat,
        floor: nat,
        parent: NodeId,
        queue: NodeId,
    )
        requires
            host.wf(),
            self.above(floor),
        ensures
            undisturbed(host, self.parts_detached(host, top_level, j).0, floor),
            stays(host, self.parts_detached(host, top_level, j).0, floor, parent, queue),
            forall|i: int|
                0 <= i < j && i < self.parts.len() ==> (#[trigger] self.part_detached(
                    host,
                    top_level,
                    i,
                )).above(floor),
        decreases self, 0nat, j,
    {
        self.lemma_parts_detached_aside(host, top_level, j, floor);
        if !(j == 0 || j > self.parts.len()) {
            self.lemma_parts_detached_queue(host, top_level, (j - 1) as nat, floor, parent, queue);
            let (before, failure) = self.parts_detached(host, top_level, (j - 1) as nat);
            assert(self.parts[j - 1].1.above(floor));
            if failure is None {
                self.parts[j - 1].1.lemma_detached_queue(before, top_level, floor, parent, queue);
            }
        } else if j > self.parts.len() {
            self.lemma_parts_detached_queue(
                host,
                top_level,
                self.parts.len(),
                floor,
                parent,
                queue,
            );
        }
    }

    /// Detaching a fragment keeps every run: it only takes nodes of the fragment out.
    pub proof fn lemma_detached_queue(
        self,
        host: HostView,
        top_level: bool,
        floor: nat,
        parent: NodeId,
        queue: NodeId,
    )
        requires
            host.wf(),
            self.above(floor),
        ensures
            undisturbed(host, self.detached(host, top_level).1, floor),
            stays(host, self.detached(host, top_level).1, floor, parent, queue),
            self.detached(host, top_level).0.above(floor),
        decreases self, 1nat, 0nat,
    {
        self.lemma_detached_aside(host, top_level, floor);
        if self.mounted {
            self.lemma_statics_detached_queue(host, self.statics.len(), floor, parent, queue);
            let (cleared, failure) = self.statics_detached(host, self.statics.len());
            if failure is None {
                self.lemma_parts_detached_queue(
                    cleared,
                    top_level,
                    self.parts.len(),
                    floor,
                    parent,
                    queue,
                );
                let state = self.detached(host, top_level).0;
                assert forall|j: int| 0 <= j < state.parts.len() implies (
                #[trigger] state.parts[j]).1.above(floor) by {
                    assert(state.parts[j].1 == self.part_detached(cleared, top_level, j));
                }
            }
        }
    }
}

impl<C: Component> PartView<C> {
    pub proof fn lemma_detached_queue(
        self,
        host: HostView,
        top_level: bool,
        floor: nat,
        parent: NodeId,
        queue: NodeId,
    )
        requires
            host.wf(),
            self.above(floor),
        ensures
            undisturbed(host, self.detached(host, top_level).1, floor),
            stays(host, self.detached(host, top_level).1, floor, parent, queue),
            self.detached(host, top_level).0.above(floor),
        decreases self, 1nat, 0nat,
    {
        self.lemma_detached_aside(host, top_level, floor);
        match self {
            PartView::Updatable { text_node, .. } => {
                lemma_unhook_queue(host, text_node, floor, parent, queue);
            },
            PartView::Conditional { fragment, anchor, fragment_mounted, .. } => {
                lemma_unhook_queue(host, anchor, floor, parent, queue);
                let (cleared, failure) = if top_level {
                    unhook(host, anchor)
                } else {
                    (host, None)
                };
                if !(failure is Some || !fragment_mounted) {
                    fragment.lemma_detached_queue(cleared, top_level, floor, parent, queue);
                }
            },
            PartView::Each { mounted_fragments, anchor, .. } => {
                lemma_fragments_detached_queue(
                    mounted_fragments,
                    host,
                    top_level,
                    mounted_fragments.len(),
                    floor,
                    parent,
                    queue,
                );
                let (cleared, failure) = fragments_detached(
                    mounted_fragments,
                    host,
                    top_level,
                    mounted_fragments.len(),
                );
                lemma_unhook_queue(cleared, anchor, floor, parent, queue);
                if !(failure is Some || !top_level) {
                }
            },
            PartView::Component { controller, .. } => {
                controller.fragment.lemma_detached_queue(host, top_level, floor, parent, queue);
            },
        }
    }
}

// ======================================================================================
// Mounting and updating keep the run
// ======================================================================================
impl<C: Component> FragmentView<C> {
    pub proof fn lemma_statics_mounted_queue(
        self,
        host: HostView,
        at: Location,
        k: nat,
        floor: nat,
        parent: NodeId,
        queue: NodeId,
    )
        requires
            admits(at, parent, queue, floor),
            host.wf(),
            self.above(floor),
        ensures
            undisturbed(host, self.statics_mounted(host, at, k).0, floor),
            stays(host, self.statics_mounted(host, at, k).0, floor, parent, queue),
        decreases k,
    {
        self.lemma_statics_mounted_aside(host, at, k, floor);
        self.lemma_target_admits(at, floor, parent, queue);
        if !(k == 0 || k > self.statics.len()) {
            self.lemma_statics_mounted_queue(host, at, (k - 1) as nat, floor, parent, queue);
            let (before, failure) = self.statics_mounted(host, at, (k - 1) as nat);
            if failure is None {
                lemma_place_queue(
                    before,
                    self.target(self.statics[k - 1].0, at),
                    self.statics[k - 1].1,
                    floor,
                    parent,
                    queue,
                );
            }
        }
    }

    pub proof fn lemma_parts_mounted_queue(
        self,
        levels: nat,
        host: HostView,
        at: Location,
        j: nat,
        floor: nat,
        parent: NodeId,
        queue: NodeId,
    )
        requires
            admits(at, parent, queue, floor),
            host.wf(),
            floor <= host.nodes.len(),
            self.above(floor),
            j <= self.parts.len(),
            fits(self.parts_mounted(levels, host, at, j).0),
        ensures
            undisturbed(host, self.parts_mounted(levels, host, at, j).0, floor),
            stays(host, self.parts_mounted(levels, host, at, j).0, floor, parent, queue),
            forall|i: int|
                0 <= i < j ==> (#[trigger] self.part_mounted(levels, host, at, i)).above(floor),
        decreases levels, self, 0nat, j,
    {
        self.lemma_parts_mounted_aside(levels, host, at, j, floor);
        self.lemma_target_admits(at, floor, parent, queue);
        if j > 0 {
            let (before, failure) = self.parts_mounted(levels, host, at, (j - 1) as nat);
            self.lemma_parts_mounted_keep(levels, host, at, (j - 1) as nat);
            assert(self.parts[j - 1].1.above(floor));
            if failure is None {
                match self.target(self.parts[j - 1].0, at) {
                    Ok(target) => {
                        self.parts[j - 1].1.lemma_mounted_keeps(levels, before, target);
                        self.lemma_parts_mounted_queue(
                            levels,
                            host,
                            at,
                            (j - 1) as nat,
                            floor,
                            parent,
                            queue,
                        );
                        self.parts[j - 1].1.lemma_mounted_queue(
                            levels,
                            before,
                            target,
                            floor,
                            parent,
                            queue,
                        );
                    },
                    Err(_) => {
                        self.lemma_parts_mounted_queue(
                            levels,
                            host,
                            at,
                            (j - 1) as nat,
                            floor,
                            parent,
                            queue,
                        );
                    },
                }
            } else {
                self.lemma_parts_mounted_queue(
                    levels,
                    host,
                    at,
                    (j - 1) as nat,
                    floor,
                    parent,
                    queue,
                );
            }
        }
    }

    /// Mounting a fragment at a place that the run admits keeps the run.
    pub proof fn lemma_mounted_queue(
        self,
        levels: nat,
        host: HostView,
        at: Location,
        floor: nat,
        parent: NodeId,
        queue: NodeId,
    )
        requires
            admits(at, parent, queue, floor),
            host.wf(),
            floor <= host.nodes.len(),
            self.above(floor),
            fits(self.mounted_at(levels, host, at).1),
        ensures
            undisturbed(host, self.mounted_at(levels, host, at).1, floor),
            stays(host, self.mounted_at(levels, host, at).1, floor, parent, queue),
            self.mounted_at(levels, host, at).0.above(floor),
        decreases levels, self, 1nat, 0nat,
    {
        self.lemma_mounted_aside(levels, host, at, floor);
        if !self.mounted {
            self.lemma_statics_mounted_queue(host, at, self.statics.len(), floor, parent, queue);
            self.lemma_statics_mounted_keep(host, at, self.statics.len());
            let (placed, failure) = self.statics_mounted(host, at, self.statics.len());
            if failure is None {
                self.lemma_parts_mounted_queue(
                    levels,
                    placed,
                    at,
                    self.parts.len(),
                    floor,
                    parent,
                    queue,
                );
                let state = self.mounted_at(levels, host, at).0;
                assert forall|j: int| 0 <= j < state.parts.len() implies (
                #[trigger] state.parts[j]).1.above(floor) by {
                    assert(state.parts[j].1 == self.part_mounted(levels, placed, at, j));
                }
            }
        }
    }

    pub proof fn lemma_parts_updated_queue(
        self,
        levels: nat,
        world: World,
        context: C,
        changed: Seq<usize>,
        j: nat,
        floor: nat,
        parent: NodeId,
        queue: NodeId,
    )
        requires
            world.host.wf(),
            floor <= world.host.nodes.len(),
            self.above(floor),
            j <= self.parts.len(),
            fits(self.parts_updated(levels, world, context, changed, j).0.host),
        ensures
            undisturbed(
                world.host,
                self.parts_updated(levels, world, context, changed, j).0.host,
                floor,
            ),
            stays(
                world.host,
                self.parts_updated(levels, world, context, changed, j).0.host,
                floor,
                parent,
                queue,
            ),
            forall|i: int|
                0 <= i < j ==> (#[trigger] self.part_updated(levels, world, context, changed, i)).above(
                    floor,
                ),
        decreases levels, self, 0nat, j,
    {
        self.lemma_parts_updated_aside(levels, world, context, changed, j, floor);
        if j > 0 {
            let (before, failure) = self.parts_updated(
                levels,
                world,
                context,
                changed,
                (j - 1) as nat,
            );
            self.lemma_parts_updated_keep(levels, world, context, changed, (j - 1) as nat);
            assert(self.parts[j - 1].1.above(floor));
            self.parts[j - 1].1.lemma_updated_keeps(levels, before, context, changed);
            self.lemma_parts_updated_queue(
                levels,
                world,
                context,
                changed,
                (j - 1) as nat,
                floor,
                parent,
                queue,
            );
            if !(failure is Some || !crate::fragment::model::selects(
                self.dependencies,
                changed,
                (j - 1) as usize,
            )) {
                self.parts[j - 1].1.lemma_updated_queue(
                    levels,
                    before,
                    context,
                    changed,
                    floor,
                    parent,
                    queue,
                );
            }
        }
    }

    /// Updating a fragment keeps every run: what it inserts goes in front of nodes of its own.
    pub proof fn lemma_updated_queue(
        self,
        levels: nat,
        world: World,
        context: C,
        changed: Seq<usize>,
        floor: nat,
        parent: NodeId,
        queue: NodeId,
    )
        requires
            world.host.wf(),
            floor <= world.host.nodes.len(),
            self.above(floor),
            fits(self.updated(levels, world, context, changed).world.host),
        ensures
            undisturbed(
                world.host,
                self.updated(levels, world, context, changed).world.host,
                floor,
            ),
            stays(
                world.host,
                self.updated(levels, world, context, changed).world.host,
                floor,
                parent,
                queue,
            ),
            self.updated(levels, world, context, changed).state.above(floor),
        decreases levels, self, 1nat, 0nat,
    {
        self.lemma_updated_aside(levels, world, context, changed, floor);
        if self.mounted {
            self.lemma_parts_updated_queue(
                levels,
                world,
                context,
                changed,
                self.parts.len(),
                floor,
                parent,
                queue,
            );
            let state = self.updated(levels, world, context, changed).state;
            assert forall|j: int| 0 <= j < state.parts.len() implies (
            #[trigger] state.parts[j]).1.above(floor) by {
                assert(state.parts[j].1 == self.part_updated(levels, world, context, changed, j));
            }
        }
    }
}

impl<C: Component> ControllerView<C> {
    pub proof fn lemma_mounted_queue(
        self,
        levels: nat,
        host: HostView,
        at: Location,
        floor: nat,
        parent: NodeId,
        queue: NodeId,
    )
        requires
            admits(at, parent, queue, floor),
            host.wf(),
            floor <= host.nodes.len(),
            self.fragment.above(floor),
            fits(self.mounted_at(levels, host, at).world.host),
        ensures
            undisturbed(host, self.mounted_at(levels, host, at).world.host, floor),
            stays(host, self.mounted_at(levels, host, at).world.host, floor, parent, queue),
            self.mounted_at(levels, host, at).state.fragment.above(floor),
        decreases levels + 1, self, 0nat, 0nat,
    {
        self.lemma_mounted_aside(levels, host, at, floor);
        self.fragment.lemma_mounted_keeps(levels, host, at);
        let (fragment, placed, failure) = self.fragment.mounted_at(levels, host, at);
        if failure is None {
            let world = World { host: placed, registry: self.registry };
            fragment.lemma_updated_keeps(levels, world, self.component, fragment.known);
            self.fragment.lemma_mounted_queue(levels, host, at, floor, parent, queue);
            fragment.lemma_updated_queue(
                levels,
                world,
                self.component,
                fragment.known,
                floor,
                parent,
                queue,
            );
        } else {
            self.fragment.lemma_mounted_queue(levels, host, at, floor, parent, queue);
        }
    }
}

impl<C: Component> PartView<C> {
    pub proof fn lemma_mounted_queue(
        self,
        levels: nat,
        host: HostView,
        at: Location,
        floor: nat,
        parent: NodeId,
        queue: NodeId,
    )
        requires
            admits(at, parent, queue, floor),
            host.wf(),
            floor <= host.nodes.len(),
            self.above(floor),
            fits(self.mounted_at(levels, host, at).1),
        ensures
            undisturbed(host, self.mounted_at(levels, host, at).1, floor),
            stays(host, self.mounted_at(levels, host, at).1, floor, parent, queue),
            self.mounted_at(levels, host, at).0.above(floor),
        decreases levels, self, 1nat, 0nat,
    {
        self.lemma_mounted_aside(levels, host, at, floor);
        match self {
            PartView::Updatable { text_node, .. } => {
                lemma_place_queue(host, Ok(at), text_node, floor, parent, queue);
            },
            PartView::Conditional { anchor, .. } => {
                lemma_place_queue(host, Ok(at), anchor, floor, parent, queue);
            },
            PartView::Each { anchor, .. } => {
                lemma_place_queue(host, Ok(at), anchor, floor, parent, queue);
            },
            PartView::Component { controller, .. } => {
                if levels > 0 {
                    controller.lemma_mounted_queue(
                        (levels - 1) as nat,
                        host,
                        at,
                        floor,
                        parent,
                        queue,
                    );
                }
            },
        }
    }

    /// Making a row in front of the end of the run, or of a newer node, keeps the run.
    pub proof fn lemma_row_queue(
        self,
        levels: nat,
        world: World,
        context: C,
        anchor: NodeId,
        item: BuilderView<C>,
        floor: nat,
        parent: NodeId,
        queue: NodeId,
    )
        requires
            anchor == queue || anchor >= floor,
            world.host.wf(),
            floor <= world.host.nodes.len(),
            fits(self.row(levels, world, context, anchor, item).world.host),
        ensures
            undisturbed(
                world.host,
                self.row(levels, world, context, anchor, item).world.host,
                floor,
            ),
            stays(
                world.host,
                self.row(levels, world, context, anchor, item).world.host,
                floor,
                parent,
                queue,
            ),
            self.row(levels, world, context, anchor, item).failure is None ==> self.row(
                levels,
                world,
                context,
                anchor,
                item,
            ).state.above(floor),
        decreases levels, self, 0nat, 0nat,
    {
        self.lemma_row_aside(levels, world, context, anchor, item, floor);
        if levels > 0 {
            match Location::before(world.host, anchor) {
                Ok(at) => {
                    item.lemma_built((levels - 1) as nat, world);
                    let made = item.built((levels - 1) as nat, world);
                    lemma_grown_queue(world.host, made.world.host, floor, parent, queue);
                    if made.failure is None {
                        made.state.lemma_mounted_keeps((levels - 1) as nat, made.world.host, at);
                        let (fragment, placed, failure) = made.state.mounted_at(
                            (levels - 1) as nat,
                            made.world.host,
                            at,
                        );
                        if failure is None {
                            fragment.lemma_updated_keeps(
                                (levels - 1) as nat,
                                made.world.on(placed),
                                context,
                                fragment.known,
                            );
                        }
                        item.lemma_built_above((levels - 1) as nat, world);
                        made.state.lemma_lower(world.host.nodes.len(), floor);
                        made.state.lemma_mounted_queue(
                            (levels - 1) as nat,
                            made.world.host,
                            at,
                            floor,
                            parent,
                            queue,
                        );
                        if failure is None {
                            fragment.lemma_updated_queue(
                                (levels - 1) as nat,
                                made.world.on(placed),
                                context,
                                fragment.known,
                                floor,
                                parent,
                                queue,
                            );
                        }
                    }
                },
                Err(_) => {},
            }
        }
    }

    pub proof fn lemma_rows_queue(
        self,
        levels: nat,
        world: World,
        context: C,
        anchor: NodeId,
        items: Seq<BuilderView<C>>,
        k: nat,
        floor: nat,
        parent: NodeId,
        queue: NodeId,
    )
        requires
            anchor == queue || anchor >= floor,
            world.host.wf(),
            floor <= world.host.nodes.len(),
            k <= items.len(),
            fits(self.rows(levels, world, context, anchor, items, k).world.host),
        ensures
            undisturbed(
                world.host,
                self.rows(levels, world, context, anchor, items, k).world.host,
                floor,
            ),
            stays(
                world.host,
                self.rows(levels, world, context, anchor, items, k).world.host,
                floor,
                parent,
                queue,
            ),
            forall|i: int|
                0 <= i < self.rows(levels, world, context, anchor, items, k).state.len() ==> (
                #[trigger] self.rows(levels, world, context, anchor, items, k).state[i]).above(floor),
        decreases levels, self, 0nat, k + 1,
    {
        self.lemma_rows_aside(levels, world, context, anchor, items, k, floor);
        if k > 0 {
            let before = self.rows(levels, world, context, anchor, items, (k - 1) as nat);
            self.lemma_rows_keep(levels, world, context, anchor, items, (k - 1) as nat);
            if before.failure is None {
                self.lemma_row_keeps(levels, before.world, context, anchor, items[k - 1]);
                self.lemma_rows_queue(
                    levels,
                    world,
                    context,
                    anchor,
                    items,
                    (k - 1) as nat,
                    floor,
                    parent,
                    queue,
                );
                self.lemma_row_queue(
                    levels,
                    before.world,
                    context,
                    anchor,
                    items[k - 1],
                    floor,
                    parent,
                    queue,
                );
            } else {
                self.lemma_rows_queue(
                    levels,
                    world,
                    context,
                    anchor,
                    items,
                    (k - 1) as nat,
                    floor,
                    parent,
                    queue,
                );
            }
        }
    }

    pub proof fn lemma_updated_queue(
        self,
        levels: nat,
        world: World,
        context: C,
        changed: Seq<usize>,
        floor: nat,
        parent: NodeId,
        queue: NodeId,
    )
        requires
            world.host.wf(),
            floor <= world.host.nodes.len(),
            self.above(floor),
            fits(self.updated(levels, world, context, changed).world.host),
        ensures
            undisturbed(
                world.host,
                self.updated(levels, world, context, changed).world.host,
                floor,
            ),
            stays(
                world.host,
                self.updated(levels, world, context, changed).world.host,
                floor,
                parent,
                queue,
            ),
            self.updated(levels, world, context, changed).state.above(floor),
        decreases levels, self, 1nat, 0nat,
    {
        self.lemma_updated_aside(levels, world, context, changed, floor);
        match self {
            PartView::Updatable { get_text, text_node } => {
                if world.host.text_failure(text_node) is None {
                    world.host.lemma_text_queue(
                        text_node,
                        context.text_of(get_text),
                        floor,
                        parent,
                        queue,
                    );
                }
            },
            PartView::Conditional { check_condition, fragment, anchor, fragment_mounted } => {
                let shows = context.holds(check_condition);
                if levels > 0 {
                    if shows && !fragment_mounted {
                        match Location::before(world.host, anchor) {
                            Ok(at) => {
                                fragment.lemma_mounted_keeps((levels - 1) as nat, world.host, at);
                                let (nested, placed, failure) = fragment.mounted_at(
                                    (levels - 1) as nat,
                                    world.host,
                                    at,
                                );
                                if failure is None {
                                    nested.lemma_updated_keeps(
                                        (levels - 1) as nat,
                                        world.on(placed),
                                        context,
                                        nested.known,
                                    );
                                }
                                fragment.lemma_mounted_queue(
                                    (levels - 1) as nat,
                                    world.host,
                                    at,
                                    floor,
                                    parent,
                                    queue,
                                );
                                if failure is None {
                                    nested.lemma_updated_queue(
                                        (levels - 1) as nat,
                                        world.on(placed),
                                        context,
                                        nested.known,
                                        floor,
                                        parent,
                                        queue,
                                    );
                                }
                            },
                            Err(_) => {},
                        }
                    } else if !shows && fragment_mounted {
                        fragment.lemma_detached_queue(world.host, true, floor, parent, queue);
                    } else if fragment_mounted {
                        fragment.lemma_updated_queue(
                            (levels - 1) as nat,
                            world,
                            context,
                            changed,
                            floor,
                            parent,
                            queue,
                        );
                    }
                } else if !shows && fragment_mounted {
                    fragment.lemma_detached_queue(world.host, true, floor, parent, queue);
                }
            },
            PartView::Each { get_items, mounted_fragments, anchor } => {
                lemma_fragments_detached_queue(
                    mounted_fragments,
                    world.host,
                    true,
                    mounted_fragments.len(),
                    floor,
                    parent,
                    queue,
                );
                lemma_fragments_detached_keep(
                    mounted_fragments,
                    world.host,
                    true,
                    mounted_fragments.len(),
                );
                let (cleared, failure) = fragments_detached(
                    mounted_fragments,
                    world.host,
                    true,
                    mounted_fragments.len(),
                );
                if failure is None {
                    let items = context.items_of(get_items);
                    self.lemma_rows_queue(
                        levels,
                        world.on(cleared),
                        context,
                        anchor,
                        items,
                        items.len(),
                        floor,
                        parent,
                        queue,
                    );
                }
            },
            PartView::Component { controller, update } => {
                if levels > 0 {
                    match context.passed_on(update, controller.component, changed) {
                        Some(ids) => {
                            controller.fragment.lemma_updated_queue(
                                (levels - 1) as nat,
                                World { host: world.host, registry: controller.registry },
                                context.adapted(update, controller.component, changed),
                                ids,
                                floor,
                                parent,
                                queue,
                            );
                        },
                        None => {},
                    }
                }
            },
        }
    }
}

// ======================================================================================
// The rows of a repeated block
// ======================================================================================
impl<C: Component> PartView<C> {
    /// While the rows are made, the nodes of each row and of the rows after it stand in one
    /// run in front of the anchor: among the children of the anchor's parent, every node
    /// that was created since row `i` was begun is followed by another such node or by the
    /// anchor.
    pub proof fn lemma_rows_queue_up(
        self,
        levels: nat,
        world: World,
        context: C,
        anchor: NodeId,
        items: Seq<BuilderView<C>>,
        k: nat,
        i: nat,
    )
        requires
            world.host.wf(),
            i <= k <= items.len(),
            world.host.parent_of(anchor) is Some,
            fits(self.rows(levels, world, context, anchor, items, k).world.host),
        ensures
            self.rows(levels, world, context, anchor, items, k).world.host.wf(),
            world.host.nodes.len() <= self.rows(
                levels,
                world,
                context,
                anchor,
                items,
                i,
            ).world.host.nodes.len() <= self.rows(
                levels,
                world,
                context,
                anchor,
                items,
                k,
            ).world.host.nodes.len(),
            queued(
                self.rows(levels, world, context, anchor, items, k).world.host,
                world.host.parent_of(anchor)->0,
                anchor,
                self.rows(levels, world, context, anchor, items, i).world.host.nodes.len(),
            ),
        decreases k,
    {
        let parent = world.host.parent_of(anchor)->0;
        let begun = self.rows(levels, world, context, anchor, items, i).world.host;
        let floor = begun.nodes.len();
        self.lemma_rows_keep(levels, world, context, anchor, items, i);
        self.lemma_rows_keep(levels, world, context, anchor, items, k);
        assert(parent < world.host.nodes.len()) by {
            assert(world.host.has(anchor));
            assert(world.host.node_wf(anchor));
        }
        if k == i {
            let kids = begun.children_of(parent);
            assert forall|t: int| 0 <= t < kids.len() implies (#[trigger] kids[t]) < floor by {
                assert(begun.node_wf(parent));
                assert(begun.has(kids[t]));
            }
        } else {
            let before = self.rows(levels, world, context, anchor, items, (k - 1) as nat);
            self.lemma_rows_keep(levels, world, context, anchor, items, (k - 1) as nat);
            if before.failure is None {
                self.lemma_row_keeps(levels, before.world, context, anchor, items[k - 1]);
            }
            self.lemma_rows_queue_up(levels, world, context, anchor, items, (k - 1) as nat, i);
            if before.failure is None {
                self.lemma_row_queue(
                    levels,
                    before.world,
                    context,
                    anchor,
                    items[k - 1],
                    floor,
                    parent,
                    anchor,
                );
            }
        }
    }

    /// The new rows stand in front of the anchor, in the order of the items. After an update
    /// of a repeated block in good standing that succeeds, take any item: among the children
    /// of the anchor's parent, the nodes that were created for this item and for the items
    /// after it stand in one run, and the anchor ends the run. So the nodes of the last row
    /// stand right in front of the anchor, in front of them those of the row before, and so
    /// on back to the first row; no node that was there before the update stands between
    /// them. That the rows do hang below the parent of the anchor is
    /// [`PartView::lemma_each_rows_seated`].
    pub proof fn lemma_each_rows_in_order(
        self,
        levels: nat,
        world: World,
        context: C,
        changed: Seq<usize>,
        i: nat,
    )
        requires
            self is Each,
            world.host.wf(),
            self.stands(world.host),
            self.updated(levels, world, context, changed).failure is None,
            fits(self.updated(levels, world, context, changed).world.host),
            i <= context.items_of(self->get_items).len(),
        ensures
            ({
                let after = self.updated(levels, world, context, changed).world.host;
                let anchor = self->Each_anchor;
                let old_fragments = self->mounted_fragments;
                let cleared = fragments_detached(
                    old_fragments,
                    world.host,
                    true,
                    old_fragments.len(),
                ).0;
                let begun = self.rows(
                    levels,
                    world.on(cleared),
                    context,
                    anchor,
                    context.items_of(self->get_items),
                    i,
                ).world.host;
                &&& world.host.parent_of(anchor) is Some
                &&& after.parent_of(anchor) == world.host.parent_of(anchor)
                &&& world.host.nodes.len() <= begun.nodes.len() <= after.nodes.len()
                &&& queued(after, world.host.parent_of(anchor)->0, anchor, begun.nodes.len())
            }),
    {
        let anchor = self->Each_anchor;
        let old_fragments = self->mounted_fragments;
        let items = context.items_of(self->get_items);
        self.lemma_each_clears_old_rows(levels, world, context, changed);
        crate::fragment::exposure::lemma_rows_detached_unhook(
            old_fragments,
            world.host,
            old_fragments.len(),
        );
        let cleared = fragments_detached(old_fragments, world.host, true, old_fragments.len()).0;
        assert(world.host.has(anchor)) by {
            assert(self.owned().contains(anchor));
        }
        assert(cleared.parent_of(anchor) == world.host.parent_of(anchor));
        self.lemma_rows_queue_up(
            levels,
            world.on(cleared),
            context,
            anchor,
            items,
            items.len(),
            i,
        );
    }
}

} // verus!
