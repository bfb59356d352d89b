//! The mathematical model of fragments: what a fragment is, seen from contracts, and what
//! building, mounting, updating and detaching do to it and to the host.
//!
//! Every operation is a function from the state before to the state after. An operation that
//! fails stops at the first failure: what was done up to there stays done.

use vstd::prelude::*;
use crate::component::Component;
use crate::fragment::builder::{BuilderView, PartKind, PartSpec};
use crate::fragment::event_registry::RegistryView;
use crate::fragment::location::Location;
use crate::host::model::{Failure, HostView, NodeId};

verus! {

/// What an operation works on besides the fragment: the host, and the registry of the
/// controller that the fragment belongs to.
pub ghost struct World {
    pub host: HostView,
    pub registry: RegistryView,
}

/// How an operation ended: the state of its subject, the world, and the failure that stopped
/// it, if one did.
pub ghost struct Step<T> {
    pub state: T,
    pub world: World,
    pub failure: Option<Failure>,
}

/// A fragment, seen from contracts.
pub ghost struct FragmentView<C> {
    /// Each static node with the index of the static node it goes into.
    pub statics: Seq<(Option<usize>, NodeId)>,
    /// Each dynamic part with the index of the static node it goes into.
    pub parts: Seq<(Option<usize>, PartView<C>)>,
    /// For each dependency id, the indices of the parts registered under it.
    pub dependencies: Map<usize, Seq<usize>>,
    /// The dependency ids in the order in which they were first registered.
    pub known: Seq<usize>,
    pub mounted: bool,
    /// How many more levels of repeated fragments and child components may be built below.
    pub levels: usize,
}

/// A dynamic part, seen from contracts.
pub ghost enum PartView<C> {
    Updatable { get_text: usize, text_node: NodeId },
    Conditional {
        check_condition: usize,
        fragment: Box<FragmentView<C>>,
        anchor: NodeId,
        fragment_mounted: bool,
    },
    Each { get_items: usize, mounted_fragments: Seq<FragmentView<C>>, anchor: NodeId },
    Component { controller: Box<ControllerView<C>>, update: usize },
}

/// A controller, seen from contracts.
pub ghost struct ControllerView<C> {
    pub component: C,
    pub registry: RegistryView,
    pub fragment: FragmentView<C>,
    /// The number under which the parent takes over the changes of this component.
    pub bound_update: Option<usize>,
}

impl World {
    /// The same world with another host.
    pub open spec fn on(self, host: HostView) -> World {
        World { host, ..self }
    }
}

/// The result that an operation returns: the failure that stopped it, or nothing.
pub open spec fn outcome(failure: Option<Failure>) -> Result<(), Failure> {
    match failure {
        Some(failure) => Err(failure),
        None => Ok(()),
    }
}

/// The host after `node` was inserted at `target`, or the failure that prevented it.
pub open spec fn place(host: HostView, target: Result<Location, Failure>, node: NodeId) -> (
    HostView,
    Option<Failure>,
) {
    match target {
        Err(failure) => (host, Some(failure)),
        Ok(at) => match host.insert_failure(at.parent, node, at.anchor) {
            Some(failure) => (host, Some(failure)),
            None => (host.inserted(at.parent, node, at.anchor), None),
        },
    }
}

/// The host after `node` was removed from the parent it has, or the failure that prevented
/// it: a node without a parent cannot be removed.
pub open spec fn unhook(host: HostView, node: NodeId) -> (HostView, Option<Failure>) {
    match host.parent_of(node) {
        None => (host, Some(Failure::Detached)),
        Some(parent) => match host.remove_failure(parent, node) {
            Some(failure) => (host, Some(failure)),
            None => (host.removed(parent, node), None),
        },
    }
}

/// The list under `id`, empty where the id has none.
pub open spec fn list_of(dependencies: Map<usize, Seq<usize>>, id: usize) -> Seq<usize> {
    if dependencies.contains_key(id) {
        dependencies[id]
    } else {
        Seq::empty()
    }
}

/// Whether part `part` is registered under one of the changed dependency ids.
pub open spec fn selects(dependencies: Map<usize, Seq<usize>>, changed: Seq<usize>, part: usize)
    -> bool {
    exists|k: int|
        0 <= k < changed.len() && list_of(dependencies, #[trigger] changed[k]).contains(part)
}

/// The index and the known ids after part `part` was registered under the first `k` of its
/// dependency ids.
pub open spec fn noted(
    dependencies: Map<usize, Seq<usize>>,
    known: Seq<usize>,
    ids: Seq<usize>,
    part: usize,
    k: nat,
) -> (Map<usize, Seq<usize>>, Seq<usize>)
    decreases k,
{
    if k == 0 {
        (dependencies, known)
    } else {
        let (index, seen) = noted(dependencies, known, ids, part, (k - 1) as nat);
        let id = ids[k - 1];
        (
            index.insert(id, list_of(index, id).push(part)),
            if index.contains_key(id) {
                seen
            } else {
                seen.push(id)
            },
        )
    }
}

/// The index and the known ids after the first `j` parts were registered.
pub open spec fn registered<C>(parts: Seq<PartSpec<C>>, j: nat) -> (
    Map<usize, Seq<usize>>,
    Seq<usize>,
)
    decreases j,
{
    if j == 0 {
        (Map::empty(), Seq::empty())
    } else {
        let (index, seen) = registered(parts, (j - 1) as nat);
        noted(
            index,
            seen,
            parts[j - 1].dependencies,
            (j - 1) as usize,
            parts[j - 1].dependencies.len(),
        )
    }
}

// ======================================================================================
// Building
// ======================================================================================
impl<C: Component> BuilderView<C> {
    /// The world after the first `k` static nodes were created.
    pub open spec fn nodes_built(self, world: World, k: nat) -> World
        decreases k,
    {
        if k == 0 || k > self.nodes.len() {
            world
        } else {
            let before = self.nodes_built(world, (k - 1) as nat);
            World {
                host: self.nodes[k - 1].0.created(before.host, before.registry),
                registry: self.nodes[k - 1].0.asked(
                    before.registry,
                    self.nodes[k - 1].0.events.len(),
                ),
            }
        }
    }

    /// The static nodes after all were created: each with the handle it got.
    pub open spec fn statics(self, world: World) -> Seq<(Option<usize>, NodeId)> {
        Seq::new(
            self.nodes.len(),
            |k: int| (self.nodes[k].1, self.nodes_built(world, k as nat).host.nodes.len() as usize),
        )
    }

    /// The world after the first `j` parts were built, starting from `world`.
    pub open spec fn parts_built(self, levels: nat, world: World, j: nat) -> (
        World,
        Option<Failure>,
    )
        decreases levels, self, 0nat, j,
    {
        if j == 0 || j > self.parts.len() {
            (world, None)
        } else {
            let (before, failure) = self.parts_built(levels, world, (j - 1) as nat);
            if failure is Some {
                (before, failure)
            } else {
                let made = self.parts[j - 1].kind.built(levels, before);
                (made.world, made.failure)
            }
        }
    }

    /// Part `j` as it was built.
    pub open spec fn part_built(self, levels: nat, world: World, j: int) -> PartView<C>
        decreases levels, self, 0nat, j + 1,
    {
        if 0 <= j < self.parts.len() {
            self.parts[j].kind.built(
                levels,
                self.parts_built(levels, world, j as nat).0,
            ).state
        } else {
            arbitrary()
        }
    }

    /// The fragment that the builder makes, with the world after it was made. Building
    /// creates the static nodes in order, then the parts in order, and registers each part
    /// under its dependency ids.
    pub open spec fn built(self, levels: nat, world: World) -> Step<FragmentView<C>>
        decreases levels, self, 1nat, 0nat,
    {
        if !self.well_formed() {
            Step { state: arbitrary(), world, failure: Some(Failure::BadParentIndex) }
        } else {
            let with_nodes = self.nodes_built(world, self.nodes.len());
            let (with_parts, failure) = self.parts_built(levels, with_nodes, self.parts.len());
            let (dependencies, known) = registered(self.parts, self.parts.len());
            Step {
                state: FragmentView {
                    statics: self.statics(world),
                    parts: Seq::new(
                        self.parts.len(),
                        |j: int| (self.parts[j].location, self.part_built(levels, with_nodes, j)),
                    ),
                    dependencies,
                    known,
                    mounted: false,
                    levels: levels as usize,
                },
                world: with_parts,
                failure,
            }
        }
    }
}

impl<C: Component> PartKind<C> {
    /// The part that this kind of builder makes. Every part creates one empty text node: the
    /// node of a text binding, the anchor of a conditional or of a repeated block. A
    /// conditional builds its nested fragment first; a child component renders and builds its
    /// own fragment, one level further down.
    pub open spec fn built(self, levels: nat, world: World) -> Step<PartView<C>>
        decreases levels, self, 0nat, 0nat,
    {
        match self {
            PartKind::Updatable { get_text } => Step {
                state: PartView::Updatable {
                    get_text,
                    text_node: world.host.nodes.len() as usize,
                },
                world: world.on(world.host.created(false, Seq::empty())),
                failure: None,
            },
            PartKind::Conditional { check_condition, fragment } => {
                let nested = if levels == 0 {
                    Step { state: arbitrary(), world, failure: Some(Failure::TooDeep) }
                } else {
                    fragment.built((levels - 1) as nat, world)
                };
                if nested.failure is Some {
                    Step { state: arbitrary(), world: nested.world, failure: nested.failure }
                } else {
                    Step {
                        state: PartView::Conditional {
                            check_condition,
                            fragment: Box::new(nested.state),
                            anchor: nested.world.host.nodes.len() as usize,
                            fragment_mounted: false,
                        },
                        world: nested.world.on(nested.world.host.created(false, Seq::empty())),
                        failure: None,
                    }
                }
            },
            PartKind::Each { get_items } => Step {
                state: PartView::Each {
                    get_items,
                    mounted_fragments: Seq::empty(),
                    anchor: world.host.nodes.len() as usize,
                },
                world: world.on(world.host.created(false, Seq::empty())),
                failure: None,
            },
            PartKind::Component { component, register_event, update, bound_update } => {
                if levels == 0 {
                    Step { state: arbitrary(), world, failure: Some(Failure::TooDeep) }
                } else {
                    let own = RegistryView { owner: register_event, closures: Map::empty() };
                    let made = component.rendered().built(
                        (levels - 1) as nat,
                        World { host: world.host, registry: own },
                    );
                    Step {
                        state: PartView::Component {
                            controller: Box::new(
                                ControllerView {
                                    component,
                                    registry: made.world.registry,
                                    fragment: made.state,
                                    bound_update,
                                },
                            ),
                            update,
                        },
                        world: world.on(made.world.host),
                        failure: made.failure,
                    }
                }
            },
        }
    }
}


// ======================================================================================
// Detaching
// ======================================================================================
/// The host after the first `k` fragments of a repeated block were detached.
pub open spec fn fragments_detached<C: Component>(
    fragments: Seq<FragmentView<C>>,
    host: HostView,
    top_level: bool,
    k: nat,
) -> (HostView, Option<Failure>)
    decreases fragments, 0nat, k,
{
    if k == 0 || k > fragments.len() {
        (host, None)
    } else {
        let (before, failure) = fragments_detached(fragments, host, top_level, (k - 1) as nat);
        if failure is Some {
            (before, failure)
        } else {
            let (_, after, failed) = fragments[k - 1].detached(before, top_level);
            (after, failed)
        }
    }
}

impl<C: Component> FragmentView<C> {
    /// The host after the first `k` static nodes were dealt with: those that go into no
    /// other static node are removed from their parents, the others stay below theirs.
    pub open spec fn statics_detached(self, host: HostView, k: nat) -> (HostView, Option<Failure>)
        decreases k,
    {
        if k == 0 || k > self.statics.len() {
            (host, None)
        } else {
            let (before, failure) = self.statics_detached(host, (k - 1) as nat);
            if failure is Some {
                (before, failure)
            } else if self.statics[k - 1].0 is Some {
                (before, None)
            } else {
                unhook(before, self.statics[k - 1].1)
            }
        }
    }

    /// The host after the first `j` parts were detached.
    pub open spec fn parts_detached(self, host: HostView, top_level: bool, j: nat) -> (
        HostView,
        Option<Failure>,
    )
        decreases self, 0nat, j,
    {
        if j == 0 || j > self.parts.len() {
            (host, None)
        } else {
            let (before, failure) = self.parts_detached(host, top_level, (j - 1) as nat);
            if failure is Some {
                (before, failure)
            } else {
                let (_, after, failed) = self.parts[j - 1].1.detached(before, top_level);
                (after, failed)
            }
        }
    }

    /// Part `j` after the fragment was detached.
    pub open spec fn part_detached(self, host: HostView, top_level: bool, j: int) -> PartView<C>
        decreases self, 0nat, j + 1,
    {
        if 0 <= j < self.parts.len() {
            let (before, failure) = self.parts_detached(host, top_level, j as nat);
            if failure is Some {
                self.parts[j].1
            } else {
                self.parts[j].1.detached(before, top_level).0
            }
        } else {
            arbitrary()
        }
    }

    /// The fragment and the host after the fragment was detached. A fragment that is not
    /// mounted stays as it is.
    pub open spec fn detached(self, host: HostView, top_level: bool) -> (
        FragmentView<C>,
        HostView,
        Option<Failure>,
    )
        decreases self, 1nat, 0nat,
    {
        if !self.mounted {
            (self, host, None)
        } else {
            let (cleared, failure) = self.statics_detached(host, self.statics.len());
            if failure is Some {
                (self, cleared, failure)
            } else {
                let (after, failed) = self.parts_detached(cleared, top_level, self.parts.len());
                (
                    FragmentView {
                        parts: Seq::new(
                            self.parts.len(),
                            |j: int| (self.parts[j].0, self.part_detached(cleared, top_level, j)),
                        ),
                        mounted: failed is Some,
                        ..self
                    },
                    after,
                    failed,
                )
            }
        }
    }
}

impl<C: Component> PartView<C> {
    /// The part and the host after the part was detached.
    pub open spec fn detached(self, host: HostView, top_level: bool) -> (
        PartView<C>,
        HostView,
        Option<Failure>,
    )
        decreases self, 1nat, 0nat,
    {
        match self {
            PartView::Updatable { text_node, .. } => {
                if top_level {
                    let (after, failure) = unhook(host, text_node);
                    (self, after, failure)
                } else {
                    (self, host, None)
                }
            },
            PartView::Conditional { check_condition, fragment, anchor, fragment_mounted } => {
                let (cleared, failure) = if top_level {
                    unhook(host, anchor)
                } else {
                    (host, None)
                };
                if failure is Some || !fragment_mounted {
                    (self, cleared, failure)
                } else {
                    let (nested, after, failed) = fragment.detached(cleared, top_level);
                    (
                        PartView::Conditional {
                            check_condition,
                            fragment: Box::new(nested),
                            anchor,
                            fragment_mounted: failed is Some,
                        },
                        after,
                        failed,
                    )
                }
            },
            PartView::Each { get_items, mounted_fragments, anchor } => {
                let (cleared, failure) = fragments_detached(
                    mounted_fragments,
                    host,
                    top_level,
                    mounted_fragments.len(),
                );
                let emptied = PartView::Each { get_items, mounted_fragments: Seq::empty(), anchor };
                if failure is Some || !top_level {
                    (emptied, cleared, failure)
                } else {
                    let (after, failed) = unhook(cleared, anchor);
                    (emptied, after, failed)
                }
            },
            PartView::Component { controller, update } => {
                let (fragment, after, failure) = controller.fragment.detached(host, top_level);
                (
                    PartView::Component {
                        controller: Box::new(ControllerView { fragment, ..*controller }),
                        update,
                    },
                    after,
                    failure,
                )
            },
        }
    }
}

// ======================================================================================
// Mounting and updating
// ======================================================================================
impl<C: Component> FragmentView<C> {
    /// Where a static node or a part goes: into the static node that its index names, or to
    /// the place where the fragment is mounted.
    pub open spec fn target(self, location: Option<usize>, at: Location) -> Result<
        Location,
        Failure,
    > {
        match location {
            None => Ok(at),
            Some(index) => if index < self.statics.len() {
                Ok(Location { parent: self.statics[index as int].1, anchor: None })
            } else {
                Err(Failure::BadParentIndex)
            },
        }
    }

    /// The host after the first `k` static nodes were mounted.
    pub open spec fn statics_mounted(self, host: HostView, at: Location, k: nat) -> (
        HostView,
        Option<Failure>,
    )
        decreases k,
    {
        if k == 0 || k > self.statics.len() {
            (host, None)
        } else {
            let (before, failure) = self.statics_mounted(host, at, (k - 1) as nat);
            if failure is Some {
                (before, failure)
            } else {
                place(before, self.target(self.statics[k - 1].0, at), self.statics[k - 1].1)
            }
        }
    }

    /// The host after the first `j` parts were mounted.
    pub open spec fn parts_mounted(self, levels: nat, host: HostView, at: Location, j: nat) -> (
        HostView,
        Option<Failure>,
    )
        decreases levels, self, 0nat, j,
    {
        if j == 0 || j > self.parts.len() {
            (host, None)
        } else {
            let (before, failure) = self.parts_mounted(levels, host, at, (j - 1) as nat);
            if failure is Some {
                (before, failure)
            } else {
                match self.target(self.parts[j - 1].0, at) {
                    Err(failed) => (before, Some(failed)),
                    Ok(target) => {
                        let (_, after, failed) = self.parts[j - 1].1.mounted_at(
                            levels,
                            before,
                            target,
                        );
                        (after, failed)
                    },
                }
            }
        }
    }

    /// Part `j` after the fragment was mounted.
    pub open spec fn part_mounted(self, levels: nat, host: HostView, at: Location, j: int)
        -> PartView<C>
        decreases levels, self, 0nat, j + 1,
    {
        if 0 <= j < self.parts.len() {
            let (before, failure) = self.parts_mounted(levels, host, at, j as nat);
            if failure is Some {
                self.parts[j].1
            } else {
                match self.target(self.parts[j].0, at) {
                    Err(_) => self.parts[j].1,
                    Ok(target) => self.parts[j].1.mounted_at(levels, before, target).0,
                }
            }
        } else {
            arbitrary()
        }
    }

    /// The fragment and the host after the fragment was mounted at `at`: first the static
    /// nodes in order, then the parts in order. Mounting a fragment updates none of its own
    /// parts. A fragment that is mounted already is not mounted again.
    pub open spec fn mounted_at(self, levels: nat, host: HostView, at: Location) -> (
        FragmentView<C>,
        HostView,
        Option<Failure>,
    )
        decreases levels, self, 1nat, 0nat,
    {
        if self.mounted {
            (self, host, Some(Failure::AlreadyMounted))
        } else {
            let (placed, failure) = self.statics_mounted(host, at, self.statics.len());
            if failure is Some {
                (self, placed, failure)
            } else {
                let (after, failed) = self.parts_mounted(levels, placed, at, self.parts.len());
                (
                    FragmentView {
                        parts: Seq::new(
                            self.parts.len(),
                            |j: int| (self.parts[j].0, self.part_mounted(levels, placed, at, j)),
                        ),
                        mounted: failed is None,
                        ..self
                    },
                    after,
                    failed,
                )
            }
        }
    }

    /// The world after the first `j` parts were dealt with: those registered under a changed
    /// dependency id are updated, the others are passed over.
    pub open spec fn parts_updated(
        self,
        levels: nat,
        world: World,
        context: C,
        changed: Seq<usize>,
        j: nat,
    ) -> (World, Option<Failure>)
        decreases levels, self, 0nat, j,
    {
        if j == 0 || j > self.parts.len() {
            (world, None)
        } else {
            let (before, failure) = self.parts_updated(
                levels,
                world,
                context,
                changed,
                (j - 1) as nat,
            );
            if failure is Some || !selects(self.dependencies, changed, (j - 1) as usize) {
                (before, failure)
            } else {
                let done = self.parts[j - 1].1.updated(levels, before, context, changed);
                (done.world, done.failure)
            }
        }
    }

    /// Part `j` after the fragment was updated.
    pub open spec fn part_updated(
        self,
        levels: nat,
        world: World,
        context: C,
        changed: Seq<usize>,
        j: int,
    ) -> PartView<C>
        decreases levels, self, 0nat, j + 1,
    {
        if 0 <= j < self.parts.len() {
            let (before, failure) = self.parts_updated(levels, world, context, changed, j as nat);
            if failure is Some || !selects(self.dependencies, changed, j as usize) {
                self.parts[j].1
            } else {
                self.parts[j].1.updated(levels, before, context, changed).state
            }
        } else {
            arbitrary()
        }
    }

    /// The fragment and the world after an update for the changed dependency ids. A fragment
    /// that is not mounted stays as it is. Of a mounted one, exactly the parts registered
    /// under a changed id are updated, each once, in the order of registration.
    pub open spec fn updated(self, levels: nat, world: World, context: C, changed: Seq<usize>)
        -> Step<FragmentView<C>>
        decreases levels, self, 1nat, 0nat,
    {
        if !self.mounted {
            Step { state: self, world, failure: None }
        } else {
            let (after, failure) = self.parts_updated(
                levels,
                world,
                context,
                changed,
                self.parts.len(),
            );
            Step {
                state: FragmentView {
                    parts: Seq::new(
                        self.parts.len(),
                        |j: int|
                            (self.parts[j].0, self.part_updated(levels, world, context, changed, j)),
                    ),
                    ..self
                },
                world: after,
                failure,
            }
        }
    }

    /// The fragment and the world after an update for every dependency id that the fragment
    /// knows.
    pub open spec fn fully_updated(self, levels: nat, world: World, context: C) -> Step<
        FragmentView<C>,
    >
        decreases levels, self, 2nat, 0nat,
    {
        self.updated(levels, world, context, self.known)
    }
}

impl<C: Component> ControllerView<C> {
    /// The controller and the world after the controller was mounted: its fragment is
    /// mounted and then fully updated.
    pub open spec fn mounted_at(self, levels: nat, host: HostView, at: Location) -> Step<
        ControllerView<C>,
    >
        decreases levels + 1, self, 0nat, 0nat,
    {
        let (fragment, placed, failure) = self.fragment.mounted_at(levels, host, at);
        if failure is Some {
            Step {
                state: ControllerView { fragment, ..self },
                world: World { host: placed, registry: self.registry },
                failure,
            }
        } else {
            let shown = fragment.fully_updated(
                levels,
                World { host: placed, registry: self.registry },
                self.component,
            );
            Step {
                state: ControllerView {
                    fragment: shown.state,
                    registry: shown.world.registry,
                    ..self
                },
                world: shown.world,
                failure: shown.failure,
            }
        }
    }
}

impl<C: Component> PartView<C> {
    /// The part and the host after the part was mounted at `at`: a text binding inserts its
    /// text node, a conditional and a repeated block insert their anchor only, a child
    /// component mounts its controller, which also updates the child fully.
    pub open spec fn mounted_at(self, levels: nat, host: HostView, at: Location) -> (
        PartView<C>,
        HostView,
        Option<Failure>,
    )
        decreases levels, self, 1nat, 0nat,
    {
        match self {
            PartView::Updatable { text_node, .. } => {
                let (after, failure) = place(host, Ok(at), text_node);
                (self, after, failure)
            },
            PartView::Conditional { anchor, .. } => {
                let (after, failure) = place(host, Ok(at), anchor);
                (self, after, failure)
            },
            PartView::Each { anchor, .. } => {
                let (after, failure) = place(host, Ok(at), anchor);
                (self, after, failure)
            },
            PartView::Component { controller, update } => {
                if levels == 0 {
                    (self, host, Some(Failure::TooDeep))
                } else {
                    let done = controller.mounted_at((levels - 1) as nat, host, at);
                    (
                        PartView::Component { controller: Box::new(done.state), update },
                        done.world.host,
                        done.failure,
                    )
                }
            },
        }
    }

    /// One fragment of a repeated block: built one level further down, mounted in front of
    /// the anchor, and fully updated.
    pub open spec fn row(
        self,
        levels: nat,
        world: World,
        context: C,
        anchor: NodeId,
        item: BuilderView<C>,
    ) -> Step<FragmentView<C>>
        decreases levels, self, 0nat, 0nat,
    {
        if levels == 0 {
            Step { state: arbitrary(), world, failure: Some(Failure::TooDeep) }
        } else {
            match Location::before(world.host, anchor) {
                Err(failure) => Step { state: arbitrary(), world, failure: Some(failure) },
                Ok(at) => {
                    let made = item.built((levels - 1) as nat, world);
                    if made.failure is Some {
                        made
                    } else {
                        let (fragment, placed, failure) = made.state.mounted_at(
                            (levels - 1) as nat,
                            made.world.host,
                            at,
                        );
                        if failure is Some {
                            Step { state: fragment, world: made.world.on(placed), failure }
                        } else {
                            fragment.fully_updated(
                                (levels - 1) as nat,
                                made.world.on(placed),
                                context,
                            )
                        }
                    }
                },
            }
        }
    }

    /// The fragments made for the first `k` items, and the world after that.
    pub open spec fn rows(
        self,
        levels: nat,
        world: World,
        context: C,
        anchor: NodeId,
        items: Seq<BuilderView<C>>,
        k: nat,
    ) -> Step<Seq<FragmentView<C>>>
        decreases levels, self, 0nat, k + 1,
    {
        if k == 0 || k > items.len() {
            Step { state: Seq::empty(), world, failure: None }
        } else {
            let before = self.rows(levels, world, context, anchor, items, (k - 1) as nat);
            if before.failure is Some {
                before
            } else {
                let made = self.row(levels, before.world, context, anchor, items[k - 1]);
                Step {
                    state: if made.failure is Some {
                        before.state
                    } else {
                        before.state.push(made.state)
                    },
                    world: made.world,
                    failure: made.failure,
                }
            }
        }
    }

    /// The part and the world after the part was updated.
    ///
    /// - A text binding overwrites its text node with the text that the component produces.
    /// - A conditional asks the component whether it shows. If it shows now and did not, its
    ///   fragment is mounted in front of the anchor and fully updated; if it showed and does
    ///   not now, its fragment is detached; if it shows as before, the update is passed on to
    ///   its fragment; else nothing happens.
    /// - A repeated block detaches all its fragments and makes new ones from the items that
    ///   the component produces.
    /// - A child component is adapted by the parent; if that touches dependency ids of the
    ///   child, the child's fragment is updated for those.
    ///
    /// A level is used up only where the update goes down into a nested fragment: a
    /// conditional that has to show or to pass the update on, and a child component in which
    /// ids were touched, fail with `TooDeep` when no level is left. A conditional that hides
    /// or stays hidden, and a child in which nothing was touched, need none.
    pub open spec fn updated(self, levels: nat, world: World, context: C, changed: Seq<usize>)
        -> Step<PartView<C>>
        decreases levels, self, 1nat, 0nat,
    {
        match self {
            PartView::Updatable { get_text, text_node } => {
                match world.host.text_failure(text_node) {
                    Some(failure) => Step { state: self, world, failure: Some(failure) },
                    None => Step {
                        state: self,
                        world: world.on(world.host.text_set(text_node, context.text_of(get_text))),
                        failure: None,
                    },
                }
            },
            PartView::Conditional { check_condition, fragment, anchor, fragment_mounted } => {
                let shows = context.holds(check_condition);
                if shows != fragment_mounted && !shows {
                    let (nested, host, failure) = fragment.detached(world.host, true);
                    Step {
                        state: PartView::Conditional {
                            check_condition,
                            fragment: Box::new(nested),
                            anchor,
                            fragment_mounted: failure is Some,
                        },
                        world: world.on(host),
                        failure,
                    }
                } else if !shows {
                    Step { state: self, world, failure: None }
                } else if levels == 0 {
                    Step { state: self, world, failure: Some(Failure::TooDeep) }
                } else if !fragment_mounted {
                    match Location::before(world.host, anchor) {
                        Err(failure) => Step { state: self, world, failure: Some(failure) },
                        Ok(at) => {
                            let (nested, placed, failure) = fragment.mounted_at(
                                (levels - 1) as nat,
                                world.host,
                                at,
                            );
                            let shown = if failure is Some {
                                Step { state: nested, world: world.on(placed), failure }
                            } else {
                                nested.fully_updated((levels - 1) as nat, world.on(placed), context)
                            };
                            Step {
                                state: PartView::Conditional {
                                    check_condition,
                                    fragment: Box::new(shown.state),
                                    anchor,
                                    fragment_mounted: shown.failure is None,
                                },
                                world: shown.world,
                                failure: shown.failure,
                            }
                        },
                    }
                } else {
                    let passed = fragment.updated((levels - 1) as nat, world, context, changed);
                    Step {
                        state: PartView::Conditional {
                            check_condition,
                            fragment: Box::new(passed.state),
                            anchor,
                            fragment_mounted,
                        },
                        world: passed.world,
                        failure: passed.failure,
                    }
                }
            },
            PartView::Each { get_items, mounted_fragments, anchor } => {
                let (cleared, failure) = fragments_detached(
                    mounted_fragments,
                    world.host,
                    true,
                    mounted_fragments.len(),
                );
                if failure is Some {
                    Step {
                        state: PartView::Each { get_items, mounted_fragments: Seq::empty(), anchor },
                        world: world.on(cleared),
                        failure,
                    }
                } else {
                    let items = context.items_of(get_items);
                    let made = self.rows(
                        levels,
                        world.on(cleared),
                        context,
                        anchor,
                        items,
                        items.len(),
                    );
                    Step {
                        state: PartView::Each { get_items, mounted_fragments: made.state, anchor },
                        world: made.world,
                        failure: made.failure,
                    }
                }
            },
            PartView::Component { controller, update } => {
                let child = context.adapted(update, controller.component, changed);
                match context.passed_on(update, controller.component, changed) {
                    None => Step {
                        state: PartView::Component {
                            controller: Box::new(ControllerView { component: child, ..*controller }),
                            update,
                        },
                        world,
                        failure: None,
                    },
                    Some(_) if levels == 0 => Step {
                        state: PartView::Component {
                            controller: Box::new(ControllerView { component: child, ..*controller }),
                            update,
                        },
                        world,
                        failure: Some(Failure::TooDeep),
                    },
                    Some(ids) => {
                        let passed = controller.fragment.updated(
                            (levels - 1) as nat,
                            World { host: world.host, registry: controller.registry },
                            child,
                            ids,
                        );
                        Step {
                            state: PartView::Component {
                                controller: Box::new(
                                    ControllerView {
                                        component: child,
                                        registry: passed.world.registry,
                                        fragment: passed.state,
                                        ..*controller
                                    },
                                ),
                                update,
                            },
                            world: world.on(passed.world.host),
                            failure: passed.failure,
                        }
                    },
                }
            },
        }
    }
}


// ======================================================================================
// What stops, stays stopped
// ======================================================================================
pub proof fn lemma_fragments_detached_stops<C: Component>(
    fragments: Seq<FragmentView<C>>,
    host: HostView,
    top_level: bool,
    k: nat,
    later: nat,
)
    requires
        fragments_detached(fragments, host, top_level, k).1 is Some,
        k <= later <= fragments.len(),
    ensures
        fragments_detached(fragments, host, top_level, later) == fragments_detached(
            fragments,
            host,
            top_level,
            k,
        ),
    decreases later,
{
    if later > k {
        lemma_fragments_detached_stops(fragments, host, top_level, k, (later - 1) as nat);
    }
}

impl<C: Component> FragmentView<C> {
    pub proof fn lemma_statics_detached_stops(self, host: HostView, k: nat, later: nat)
        requires
            self.statics_detached(host, k).1 is Some,
            k <= later <= self.statics.len(),
        ensures
            self.statics_detached(host, later) == self.statics_detached(host, k),
        decreases later,
    {
        if later > k {
            self.lemma_statics_detached_stops(host, k, (later - 1) as nat);
        }
    }

    pub proof fn lemma_statics_mounted_stops(self, host: HostView, at: Location, k: nat, later: nat)
        requires
            self.statics_mounted(host, at, k).1 is Some,
            k <= later <= self.statics.len(),
        ensures
            self.statics_mounted(host, at, later) == self.statics_mounted(host, at, k),
        decreases later,
    {
        if later > k {
            self.lemma_statics_mounted_stops(host, at, k, (later - 1) as nat);
        }
    }

    pub proof fn lemma_parts_detached_stops(
        self,
        host: HostView,
        top_level: bool,
        j: nat,
        later: nat,
    )
        requires
            self.parts_detached(host, top_level, j).1 is Some,
            j <= later <= self.parts.len(),
        ensures
            self.parts_detached(host, top_level, later) == self.parts_detached(host, top_level, j),
        decreases later,
    {
        if later > j {
            self.lemma_parts_detached_stops(host, top_level, j, (later - 1) as nat);
        }
    }

    pub proof fn lemma_parts_mounted_stops(
        self,
        levels: nat,
        host: HostView,
        at: Location,
        j: nat,
        later: nat,
    )
        requires
            self.parts_mounted(levels, host, at, j).1 is Some,
            j <= later <= self.parts.len(),
        ensures
            self.parts_mounted(levels, host, at, later) == self.parts_mounted(levels, host, at, j),
        decreases later,
    {
        if later > j {
            self.lemma_parts_mounted_stops(levels, host, at, j, (later - 1) as nat);
        }
    }

    pub proof fn lemma_parts_updated_stops(
        self,
        levels: nat,
        world: World,
        context: C,
        changed: Seq<usize>,
        j: nat,
        later: nat,
    )
        requires
            self.parts_updated(levels, world, context, changed, j).1 is Some,
            j <= later <= self.parts.len(),
        ensures
            self.parts_updated(levels, world, context, changed, later) == self.parts_updated(
                levels,
                world,
                context,
                changed,
                j,
            ),
        decreases later,
    {
        if later > j {
            self.lemma_parts_updated_stops(levels, world, context, changed, j, (later - 1) as nat);
        }
    }
}

} // verus!
