//! The controller of a component.

use vstd::prelude::*;
use vstd::slice::slice_to_vec;
use crate::component::Component;
use crate::fragment::event_registry::EventRegistry;
use crate::fragment::location::Location;
use crate::component::ids_of;
use crate::fragment::event_registry::RegistryView;
use crate::fragment::model::{outcome, ControllerView, Step, World};
use crate::fragment::routing::{ended, Routing};
use crate::host::model::HostCallback;
use crate::fragment::Fragment;
use crate::host::model::Failure;
use crate::host::Host;

verus! {

/// Owns a component, the fragment that shows it and the registry of its callbacks, and takes
/// the component through the cycle of event, change of state and update.
pub struct Controller<C> {
    /// The component that is shown.
    pub(crate) component: C,
    /// The callbacks of the component's events.
    pub(crate) event_registry: EventRegistry,
    /// The fragment that shows the component.
    pub(crate) fragment: Fragment<C>,
    /// The number under which the parent takes over the changes of this component, if it
    /// has a parent that does.
    pub(crate) bound_update: Option<usize>,
}

impl<C> Controller<C> {
    pub open(crate) spec fn view(&self) -> ControllerView<C>
        decreases self,
    {
        ControllerView {
            component: self.component,
            registry: self.event_registry@,
            fragment: self.fragment.view(),
            bound_update: self.bound_update,
        }
    }
}


/// What the parent of a bound child has to take over after the child has changed: the hook
/// that binds the two, and the dependency ids that changed in the child.
#[derive(Debug, PartialEq, Eq)]
pub struct Handover {
    /// The number under which the parent takes the change over.
    pub hook: usize,
    /// The dependency ids of the child that changed.
    pub changed: Vec<usize>,
}

/// The hook and the ids of a handover, if there is one.
pub open spec fn handed(handover: Option<Handover>) -> Option<(usize, Seq<usize>)> {
    match handover {
        Some(handover) => Some((handover.hook, handover.changed@)),
        None => None,
    }
}

/// What came of handling an event.
#[derive(Debug, PartialEq, Eq)]
pub struct Handled {
    /// The dependency ids that the component reported as changed, if it reported any.
    pub changed: Option<Vec<usize>>,
    /// What the parent has to take over, if the component changed and is bound to a parent.
    pub handover: Option<Handover>,
}

impl<C: Component> Controller<C> {
    /// Mounts the fragment and updates it fully, with `levels` levels of nested fragments to
    /// go.
    pub(crate) fn mount_within(&mut self, host: &mut Host, location: &Location, levels: usize)
        -> (r: Result<(), Failure>)
        requires
            old(host)@.wf(),
        ensures
            final(host)@.wf(),
            ({
                let step = old(self).view().mounted_at(levels as nat, old(host)@, *location);
                &&& final(self).view() == step.state
                &&& final(host)@ == step.world.host
                &&& r == outcome(step.failure)
            }),
        decreases levels + 1, 0nat, 0nat,
    {
        if let Err(failure) = self.fragment.mount_within(host, location, levels) {
            return Err(failure);
        }
        self.fragment.full_update_within(host, &mut self.event_registry, &self.component, levels)
    }
}


impl<C: Component> ControllerView<C> {
    /// The controller that is made for `component`, and the host after its fragment was
    /// built.
    pub open spec fn made(
        component: C,
        host: crate::host::model::HostView,
        register_event: usize,
        bound_update: Option<usize>,
    ) -> Step<ControllerView<C>> {
        let step = component.rendered().built(
            usize::MAX as nat,
            World {
                host,
                registry: RegistryView { owner: register_event, closures: Map::empty() },
            },
        );
        Step {
            state: ControllerView {
                component,
                registry: step.world.registry,
                fragment: step.state,
                bound_update,
            },
            world: step.world,
            failure: step.failure,
        }
    }

    /// The controller and the host after the fragment was updated for the changed ids.
    pub open spec fn notified(self, host: crate::host::model::HostView, changed: Seq<usize>)
        -> Step<ControllerView<C>> {
        let step = self.fragment.updated(
            self.fragment.levels as nat,
            World { host, registry: self.registry },
            self.component,
            changed,
        );
        Step {
            state: ControllerView { fragment: step.state, registry: step.world.registry, ..self },
            world: step.world,
            failure: step.failure,
        }
    }

    /// What the parent of this controller has to take over after `changed` changed here: the
    /// hook and the ids, and nothing where the controller is bound to no parent.
    pub open spec fn owed(self, changed: Seq<usize>) -> Option<(usize, Seq<usize>)> {
        match self.bound_update {
            Some(hook) => Some((hook, changed)),
            None => None,
        }
    }

    /// The parent's component after it took over the change of this controller's component,
    /// and the parent's own dependency ids that this touched. A controller that is bound to
    /// no parent leaves the parent as it is.
    pub open spec fn taken_over(self, parent: C, changed: Seq<usize>) -> (C, Option<Seq<usize>>) {
        match self.bound_update {
            Some(hook) => (
                parent.bound(hook, self.component, changed),
                parent.bound_ids(hook, self.component, changed),
            ),
            None => (parent, None),
        }
    }

    /// What the parent has to take over after the event: what is owed for the ids that the
    /// component reported, and nothing where it reported none.
    pub open spec fn owed_after(self, event_id: usize) -> Option<(usize, Seq<usize>)> {
        match self.component.changed_by(event_id) {
            Some(changed) => self.owed(changed),
            None => None,
        }
    }

    /// The controller and the host after the component handled the event and, if that changed
    /// anything, the fragment was updated for what changed.
    pub open spec fn handled(self, host: crate::host::model::HostView, event_id: usize) -> Step<
        ControllerView<C>,
    > {
        let after = ControllerView { component: self.component.after_event(event_id), ..self };
        match self.component.changed_by(event_id) {
            Some(changed) => after.notified(host, changed),
            None => Step {
                state: after,
                world: World { host, registry: self.registry },
                failure: None,
            },
        }
    }
}

impl<C: Component> Controller<C> {
    /// Makes the controller of a component: renders the component, makes the registry of its
    /// callbacks, which report to the token `register_event`, and builds its fragment. The
    /// fragment is not mounted. With a `bound_update` the controller is bound to a parent,
    /// which takes over every change under that number.
    pub fn new(
        host: &mut Host,
        component: C,
        register_event: usize,
        bound_update: Option<usize>,
    ) -> (r: Result<Controller<C>, Failure>)
        requires
            old(host)@.wf(),
        ensures
            final(host)@.wf(),
            ({
                let step = ControllerView::made(
                    component,
                    old(host)@,
                    register_event,
                    bound_update,
                );
                &&& final(host)@ == step.world.host
                &&& match r {
                    Ok(controller) => step.failure is None && controller.view() == step.state,
                    Err(failure) => step.failure == Some(failure),
                }
            }),
    {
        let mut event_registry = EventRegistry::new(register_event);
        let builder = component.render();
        match builder.build(host, &mut event_registry) {
            Ok(fragment) => Ok(Controller { component, event_registry, fragment, bound_update }),
            Err(failure) => Err(failure),
        }
    }

    /// Mounts the component at `location`: mounts its fragment, then updates it fully, so
    /// that it shows the state of the component.
    pub fn mount(&mut self, host: &mut Host, location: &Location) -> (r: Result<(), Failure>)
        requires
            old(host)@.wf(),
        ensures
            final(host)@.wf(),
            ({
                let view = old(self).view();
                let step = view.mounted_at(view.fragment.levels as nat, old(host)@, *location);
                &&& final(self).view() == step.state
                &&& final(host)@ == step.world.host
                &&& r == outcome(step.failure)
            }),
    {
        let levels = self.fragment.levels;
        self.mount_within(host, location, levels)
    }

    /// Detaches the fragment of the component.
    pub fn detach(&mut self, host: &mut Host, top_level: bool) -> (r: Result<(), Failure>)
        requires
            old(host)@.wf(),
        ensures
            final(host)@.wf(),
            ({
                let view = old(self).view();
                let done = view.fragment.detached(old(host)@, top_level);
                &&& final(self).view() == (ControllerView { fragment: done.0, ..view })
                &&& final(host)@ == done.1
                &&& r == outcome(done.2)
            }),
    {
        self.fragment.detach(host, top_level)
    }

    /// Updates the fragment for the changed dependency ids, and does no more: nothing is
    /// handed to a parent. [`Controller::notify_changed`] is the notify that also says what a
    /// parent has to take over.
    pub fn update_fragment(&mut self, host: &mut Host, changed: &[usize]) -> (r: Result<
        (),
        Failure,
    >)
        requires
            old(host)@.wf(),
        ensures
            final(host)@.wf(),
            ({
                let step = old(self).view().notified(old(host)@, changed@);
                &&& final(self).view() == step.state
                &&& final(host)@ == step.world.host
                &&& r == outcome(step.failure)
            }),
    {
        self.fragment.update(host, &mut self.event_registry, &self.component, changed)
    }

    /// Tells the controller that the state behind the given dependency ids has changed. The
    /// fragment is updated for them, once. A controller that is bound to a parent then hands
    /// back what the parent has to take over, the hook and the same ids, with the component
    /// released; a controller without a parent hands back nothing. Where the parent's
    /// component is at hand, [`Controller::notify_bound`] lets it take over at once.
    pub fn notify_changed(&mut self, host: &mut Host, changed: &[usize]) -> (r: Result<
        Option<Handover>,
        Failure,
    >)
        requires
            old(host)@.wf(),
        ensures
            final(host)@.wf(),
            ({
                let step = old(self).view().notified(old(host)@, changed@);
                &&& final(self).view() == step.state
                &&& final(host)@ == step.world.host
                &&& match r {
                    Ok(handover) => step.failure is None && handed(handover) == old(
                        self,
                    ).view().owed(changed@),
                    Err(failure) => step.failure == Some(failure),
                }
            }),
    {
        if let Err(failure) = self.update_fragment(host, changed) {
            return Err(failure);
        }
        match self.bound_update {
            Some(hook) => Ok(Some(Handover { hook, changed: slice_to_vec(changed) })),
            None => Ok(None),
        }
    }

    /// Lets the parent take over a change of this controller's component: the parent's
    /// component copies what it needs from the changed child under the hook that binds the
    /// two, and reports which of its own dependency ids that touched. Without a hook the
    /// parent stays as it is.
    pub fn hand_over(&self, parent: &mut C, changed: &[usize]) -> (passed: Option<Vec<usize>>)
        ensures
            *final(parent) == self.view().taken_over(*old(parent), changed@).0,
            ids_of(passed) == self.view().taken_over(*old(parent), changed@).1,
    {
        match self.bound_update {
            Some(hook) => parent.bound_update(hook, &self.component, changed),
            None => None,
        }
    }

    /// The notify of a child whose parent's component is at hand: the child's fragment is
    /// updated for the changed ids, once, and then the parent takes the change over under
    /// the hook that binds the two, once and with the same ids. Returns the parent's own
    /// dependency ids that this touched. If the update fails, the parent is not told.
    pub fn notify_bound(&mut self, host: &mut Host, parent: &mut C, changed: &[usize]) -> (r:
        Result<Option<Vec<usize>>, Failure>)
        requires
            old(host)@.wf(),
        ensures
            final(host)@.wf(),
            ({
                let step = old(self).view().notified(old(host)@, changed@);
                let taken = step.state.taken_over(*old(parent), changed@);
                &&& final(self).view() == step.state
                &&& final(host)@ == step.world.host
                &&& match r {
                    Ok(passed) => {
                        &&& step.failure is None
                        &&& *final(parent) == taken.0
                        &&& ids_of(passed) == taken.1
                    },
                    Err(failure) => step.failure == Some(failure) && *final(parent) == *old(
                        parent,
                    ),
                }
            }),
    {
        match self.notify_changed(host, changed) {
            Err(failure) => Err(failure),
            Ok(Some(handover)) => Ok(
                parent.bound_update(handover.hook, &self.component, handover.changed.as_slice()),
            ),
            Ok(None) => Ok(None),
        }
    }

    /// Takes one event through the cycle: the component handles it, and if it reports changed
    /// dependency ids, the fragment is updated for them, once. Returns what the component
    /// reported and, for a controller that is bound to a parent, what the parent has to take
    /// over.
    pub fn handle_event(&mut self, host: &mut Host, event_id: usize) -> (r: Result<
        Handled,
        Failure,
    >)
        requires
            old(host)@.wf(),
        ensures
            final(host)@.wf(),
            ({
                let step = old(self).view().handled(old(host)@, event_id);
                &&& final(self).view() == step.state
                &&& final(host)@ == step.world.host
                &&& match r {
                    Ok(handled) => {
                        &&& step.failure is None
                        &&& ids_of(handled.changed) == old(self).view().component.changed_by(
                            event_id,
                        )
                        &&& handed(handled.handover) == old(self).view().owed_after(event_id)
                    },
                    Err(failure) => step.failure == Some(failure),
                }
            }),
    {
        let changed = self.component.handle_event(event_id);
        match changed {
            Some(ids) => match self.notify_changed(host, ids.as_slice()) {
                Ok(handover) => Ok(Handled { changed: Some(ids), handover }),
                Err(failure) => Err(failure),
            },
            None => Ok(Handled { changed: None, handover: None }),
        }
    }

    /// The component, to read its state.
    pub fn component(&self) -> (component: &C)
        ensures
            *component == self.view().component,
    {
        &self.component
    }

    /// The component, to change its state from outside. The fragment shows the change after
    /// [`Controller::notify_changed`].
    pub fn component_mut(&mut self) -> (component: &mut C)
        ensures
            *component == old(self).view().component,
            final(self).view() == (ControllerView {
                component: *final(component),
                ..old(self).view()
            }),
    {
        &mut self.component
    }

    /// Whether the fragment of the component is mounted now.
    pub fn is_mounted(&self) -> (mounted: bool)
        ensures
            mounted == self.view().fragment.mounted,
    {
        self.fragment.is_mounted()
    }
}


impl<C: Component> Controller<C> {
    /// Searches for the owner of `callback` from this controller down, with `levels` levels
    /// of nested fragments to go.
    pub(crate) fn dispatch_within(&mut self, host: &mut Host, callback: HostCallback, levels: usize)
        -> (r: Result<Routing, Failure>)
        requires
            old(host)@.wf(),
        ensures
            final(host)@.wf(),
            ({
                let routed = old(self).view().dispatched(levels as nat, old(host)@, callback);
                &&& final(self).view() == routed.state
                &&& final(host)@ == routed.host
                &&& ended(r, routed)
            }),
        decreases levels + 1, 0nat, 0nat,
    {
        if callback.owner == self.event_registry.owner() {
            match self.component.handle_event(callback.event_id) {
                Some(changed) => {
                    match self.fragment.update_within(
                        host,
                        &mut self.event_registry,
                        &self.component,
                        changed.as_slice(),
                        levels,
                    ) {
                        Ok(_) => Ok(Routing::Changed(changed)),
                        Err(failure) => Err(failure),
                    }
                },
                None => Ok(Routing::Settled),
            }
        } else {
            match self.fragment.dispatch_within(host, &mut self.component, callback, levels) {
                Err(failure) => Err(failure),
                Ok(Routing::Changed(changed)) => {
                    match self.fragment.update_within(
                        host,
                        &mut self.event_registry,
                        &self.component,
                        changed.as_slice(),
                        levels,
                    ) {
                        Ok(_) => Ok(Routing::Changed(changed)),
                        Err(failure) => Err(failure),
                    }
                },
                Ok(other) => Ok(other),
            }
        }
    }

    /// Searches for the owner of `callback` from this controller down, and lets the parent
    /// take over what changed, with `levels` levels of nested fragments to go.
    pub(crate) fn dispatch_bound_within(
        &mut self,
        host: &mut Host,
        parent: &mut C,
        callback: HostCallback,
        levels: usize,
    ) -> (r: Result<Routing, Failure>)
        requires
            old(host)@.wf(),
        ensures
            final(host)@.wf(),
            ({
                let routed = old(self).view().dispatched_bound(
                    levels as nat,
                    old(host)@,
                    *old(parent),
                    callback,
                );
                &&& final(self).view() == routed.state
                &&& final(host)@ == routed.host
                &&& *final(parent) == routed.context
                &&& ended(r, routed)
            }),
        decreases levels + 1, 0nat, 1nat,
    {
        match self.dispatch_within(host, callback, levels) {
            Err(failure) => Err(failure),
            Ok(Routing::Changed(changed)) => {
                match self.hand_over(parent, changed.as_slice()) {
                    Some(ids) => Ok(Routing::Changed(ids)),
                    None => Ok(Routing::Settled),
                }
            },
            Ok(other) => Ok(other),
        }
    }

    /// Takes an event to a controller that is bound to a parent, with the parent's component
    /// at hand: the event goes to the controller that owns the callback, this one or one
    /// below it, and through the cycle there. If that changed something here, the fragment
    /// of this controller is updated for it, once, and then the parent takes the change over
    /// under the hook that binds the two, once and with the same ids. Says what became of
    /// the event for the parent: which of its own dependency ids changed, if any.
    pub fn dispatch_bound(&mut self, host: &mut Host, parent: &mut C, callback: HostCallback) -> (r:
        Result<Routing, Failure>)
        requires
            old(host)@.wf(),
        ensures
            final(host)@.wf(),
            ({
                let view = old(self).view();
                let routed = view.dispatched_bound(
                    view.fragment.levels as nat,
                    old(host)@,
                    *old(parent),
                    callback,
                );
                &&& final(self).view() == routed.state
                &&& final(host)@ == routed.host
                &&& *final(parent) == routed.context
                &&& ended(r, routed)
            }),
    {
        let levels = self.fragment.levels;
        self.dispatch_bound_within(host, parent, callback, levels)
    }

    /// The number under which the parent takes over the changes of this controller's
    /// component, if the controller is bound to a parent.
    pub fn bound_update(&self) -> (hook: Option<usize>)
        ensures
            hook == self.view().bound_update,
    {
        self.bound_update
    }

    /// Takes the event of a callback to the controller that owns the callback, this one or
    /// the controller of a child component below it, and from there through the cycle. What a
    /// child changes reaches its parent through the hook that binds the two, and the parent
    /// is updated for it after the child is done. Says what became of the event: what
    /// changed in this controller's own component is reported as [`Routing::Changed`], for
    /// the caller to take over where this controller is bound to a parent (see
    /// [`Controller::dispatch_bound`]).
    pub fn dispatch(&mut self, host: &mut Host, callback: HostCallback) -> (r: Result<
        Routing,
        Failure,
    >)
        requires
            old(host)@.wf(),
        ensures
            final(host)@.wf(),
            ({
                let view = old(self).view();
                let routed = view.dispatched(view.fragment.levels as nat, old(host)@, callback);
                &&& final(self).view() == routed.state
                &&& final(host)@ == routed.host
                &&& ended(r, routed)
            }),
    {
        let levels = self.fragment.levels;
        self.dispatch_within(host, callback, levels)
    }
}

} // verus!
