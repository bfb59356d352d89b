//! Taking an event to the controller that owns its callback.
//!
//! A callback names the controller it reports to by the token of that controller. The
//! controller at the root is offered every event. It handles what is its own; everything
//! else it hands down through its fragment to the controllers of the child components, and
//! what a child reports as changed comes back up through the hook that binds the child to
//! its parent.

use vstd::prelude::*;
use crate::component::Component;
use crate::fragment::dynamic::{fragment_views, DynamicPart};
use crate::fragment::model::{ControllerView, FragmentView, PartView, World};
use crate::fragment::Fragment;
use crate::host::model::{Failure, HostCallback, HostView};
use crate::host::Host;

verus! {

/// What became of an event.
#[derive(Debug, PartialEq, Eq)]
pub enum Routing {
    /// No controller owns the callback.
    Unclaimed,
    /// A controller took the event, and nothing changed for whoever asks.
    Settled,
    /// A controller took the event, and these dependency ids of the asked one changed.
    Changed(Vec<usize>),
}

/// What became of an event, seen from contracts.
pub ghost enum RoutingView {
    Unclaimed,
    Settled,
    Changed(Seq<usize>),
}

impl View for Routing {
    type V = RoutingView;

    open spec fn view(&self) -> RoutingView {
        match self {
            Routing::Unclaimed => RoutingView::Unclaimed,
            Routing::Settled => RoutingView::Settled,
            Routing::Changed(ids) => RoutingView::Changed(ids@),
        }
    }
}

/// How the search for the owner of a callback ended.
pub ghost struct Routed<T, X> {
    pub state: T,
    /// The component of the searching controller, which a bound child may have changed.
    pub context: X,
    pub host: HostView,
    pub failure: Option<Failure>,
    pub routing: RoutingView,
}

/// The routing that a change report stands for.
pub open spec fn reported(changed: Option<Seq<usize>>) -> RoutingView {
    match changed {
        Some(ids) => RoutingView::Changed(ids),
        None => RoutingView::Settled,
    }
}

impl<C: Component> ControllerView<C> {
    /// The controller and the host after the fragment was updated for the changed ids.
    pub open spec fn notified_within(self, levels: nat, host: HostView, changed: Seq<usize>)
        -> Routed<ControllerView<C>, ()> {
        let step = self.fragment.updated(
            levels,
            World { host, registry: self.registry },
            self.component,
            changed,
        );
        Routed {
            state: ControllerView { fragment: step.state, registry: step.world.registry, ..self },
            context: (),
            host: step.world.host,
            failure: step.failure,
            routing: RoutingView::Changed(changed),
        }
    }

    /// The search for the owner of `callback`, from this controller down. A controller that
    /// owns the callback lets its component handle the event and updates its fragment for
    /// what changed. A controller that does not asks the child components in its fragment;
    /// if one of them took the event and its change reached this component through the hook
    /// that binds the two, the fragment is updated for what that changed here.
    pub open spec fn dispatched(self, levels: nat, host: HostView, callback: HostCallback)
        -> Routed<ControllerView<C>, ()>
        decreases levels + 1, self, 0nat, 0nat,
    {
        if callback.owner == self.registry.owner {
            let after = ControllerView {
                component: self.component.after_event(callback.event_id),
                ..self
            };
            match self.component.changed_by(callback.event_id) {
                Some(changed) => after.notified_within(levels, host, changed),
                None => Routed {
                    state: after,
                    context: (),
                    host,
                    failure: None,
                    routing: RoutingView::Settled,
                },
            }
        } else {
            let below = self.fragment.dispatched(levels, host, self.component, callback);
            let after = ControllerView {
                component: below.context,
                fragment: below.state,
                ..self
            };
            match below.routing {
                RoutingView::Changed(changed) if below.failure is None => after.notified_within(
                    levels,
                    below.host,
                    changed,
                ),
                _ => Routed {
                    state: after,
                    context: (),
                    host: below.host,
                    failure: below.failure,
                    routing: below.routing,
                },
            }
        }
    }
}

impl<C: Component> ControllerView<C> {
    /// The search from a controller that is bound to a parent, with the component of the
    /// parent at hand. The controller is asked as any other. If the event changed something
    /// in it or in a child below it that reached it, the parent takes that over under the
    /// hook that binds the two, once the controller's own fragment shows it, and what changed
    /// in the parent by that is what became of the event for whoever asked the parent. A
    /// change of a controller that is bound to nobody ends here.
    pub open spec fn dispatched_bound(
        self,
        levels: nat,
        host: HostView,
        parent: C,
        callback: HostCallback,
    ) -> Routed<ControllerView<C>, C>
        decreases levels + 1, self, 1nat, 0nat,
    {
        let below = self.dispatched(levels, host, callback);
        match below.routing {
            RoutingView::Changed(changed) if below.failure is None => {
                let taken = below.state.taken_over(parent, changed);
                Routed {
                    state: below.state,
                    context: taken.0,
                    host: below.host,
                    failure: None,
                    routing: reported(taken.1),
                }
            },
            RoutingView::Changed(_) => Routed {
                state: below.state,
                context: parent,
                host: below.host,
                failure: below.failure,
                routing: RoutingView::Settled,
            },
            _ => Routed {
                state: below.state,
                context: parent,
                host: below.host,
                failure: below.failure,
                routing: below.routing,
            },
        }
    }
}

impl<C: Component> ControllerView<C> {
    /// An event of a bound controller reaches the parent. When a controller that is bound to
    /// a parent is offered an event of its own and its component reports changed ids, the
    /// fragment of the controller is updated for these ids, once; if that succeeds, the
    /// parent's component takes the change over under the hook, from the child as it is
    /// after the event and with the same ids, and what the parent reports is what became of
    /// the event. Without a hook, or where the component reports nothing, the parent stays
    /// as it is and the event is settled. If the update fails, the parent is not told.
    pub proof fn lemma_own_event_is_handed_over(
        self,
        levels: nat,
        host: HostView,
        parent: C,
        callback: HostCallback,
    )
        requires
            callback.owner == self.registry.owner,
        ensures
            ({
                let routed = self.dispatched_bound(levels, host, parent, callback);
                let child = self.component.after_event(callback.event_id);
                match self.component.changed_by(callback.event_id) {
                    None => routed == (Routed {
                        state: ControllerView { component: child, ..self },
                        context: parent,
                        host,
                        failure: None,
                        routing: RoutingView::Settled,
                    }),
                    Some(changed) => {
                        let step = self.fragment.updated(
                            levels,
                            World { host, registry: self.registry },
                            child,
                            changed,
                        );
                        &&& routed.state == (ControllerView {
                            component: child,
                            fragment: step.state,
                            registry: step.world.registry,
                            ..self
                        })
                        &&& routed.host == step.world.host
                        &&& routed.failure == step.failure
                        &&& step.failure is Some ==> routed.context == parent
                        &&& step.failure is None ==> match self.bound_update {
                            Some(hook) => {
                                &&& routed.context == parent.bound(hook, child, changed)
                                &&& routed.routing == reported(
                                    parent.bound_ids(hook, child, changed),
                                )
                            },
                            None => routed.context == parent && routed.routing
                                == RoutingView::Settled,
                        }
                    },
                }
            }),
    {
    }
}

impl<C: Component> FragmentView<C> {
    /// The search after the first `j` parts were asked. It ends with the first part that
    /// claims the event, or fails.
    pub open spec fn parts_dispatched(
        self,
        levels: nat,
        host: HostView,
        context: C,
        callback: HostCallback,
        j: nat,
    ) -> Routed<(), C>
        decreases levels, self, 0nat, j,
    {
        if j == 0 || j > self.parts.len() {
            Routed { state: (), context, host, failure: None, routing: RoutingView::Unclaimed }
        } else {
            let before = self.parts_dispatched(levels, host, context, callback, (j - 1) as nat);
            if before.failure is Some || !(before.routing is Unclaimed) {
                before
            } else {
                let asked = self.parts[j - 1].1.dispatched(
                    levels,
                    before.host,
                    before.context,
                    callback,
                );
                Routed {
                    state: (),
                    context: asked.context,
                    host: asked.host,
                    failure: asked.failure,
                    routing: asked.routing,
                }
            }
        }
    }

    /// Part `j` after the search.
    pub open spec fn part_dispatched(
        self,
        levels: nat,
        host: HostView,
        context: C,
        callback: HostCallback,
        j: int,
    ) -> PartView<C>
        decreases levels, self, 0nat, j + 1,
    {
        if 0 <= j < self.parts.len() {
            let before = self.parts_dispatched(levels, host, context, callback, j as nat);
            if before.failure is Some || !(before.routing is Unclaimed) {
                self.parts[j].1
            } else {
                self.parts[j].1.dispatched(levels, before.host, before.context, callback).state
            }
        } else {
            arbitrary()
        }
    }

    /// The search for the owner of `callback` among the child components of the fragment,
    /// part by part.
    pub open spec fn dispatched(
        self,
        levels: nat,
        host: HostView,
        context: C,
        callback: HostCallback,
    ) -> Routed<FragmentView<C>, C>
        decreases levels, self, 1nat, 0nat,
    {
        let after = self.parts_dispatched(levels, host, context, callback, self.parts.len());
        Routed {
            state: FragmentView {
                parts: Seq::new(
                    self.parts.len(),
                    |j: int|
                        (
                            self.parts[j].0,
                            self.part_dispatched(levels, host, context, callback, j),
                        ),
                ),
                ..self
            },
            context: after.context,
            host: after.host,
            failure: after.failure,
            routing: after.routing,
        }
    }

    pub proof fn lemma_parts_dispatched_stops(
        self,
        levels: nat,
        host: HostView,
        context: C,
        callback: HostCallback,
        j: nat,
        later: nat,
    )
        requires
            self.parts_dispatched(levels, host, context, callback, j).failure is Some
                || !(self.parts_dispatched(levels, host, context, callback, j).routing
                is Unclaimed),
            j <= later <= self.parts.len(),
        ensures
            self.parts_dispatched(levels, host, context, callback, later)
                == self.parts_dispatched(levels, host, context, callback, j),
        decreases later,
    {
        if later > j {
            self.lemma_parts_dispatched_stops(levels, host, context, callback, j, (later - 1) as nat);
        }
    }
}

impl<C: Component> PartView<C> {
    /// The search after the first `k` fragments of a repeated block were asked.
    pub open spec fn rows_dispatched(
        self,
        levels: nat,
        host: HostView,
        context: C,
        callback: HostCallback,
        k: nat,
    ) -> Routed<(), C>
        decreases levels, self, 0nat, k,
    {
        if k == 0 || !(self is Each) || k > self->mounted_fragments.len() || levels == 0 {
            Routed { state: (), context, host, failure: None, routing: RoutingView::Unclaimed }
        } else {
            let before = self.rows_dispatched(levels, host, context, callback, (k - 1) as nat);
            if before.failure is Some || !(before.routing is Unclaimed) {
                before
            } else {
                let asked = self->mounted_fragments[k - 1].dispatched(
                    (levels - 1) as nat,
                    before.host,
                    before.context,
                    callback,
                );
                Routed {
                    state: (),
                    context: asked.context,
                    host: asked.host,
                    failure: asked.failure,
                    routing: asked.routing,
                }
            }
        }
    }

    /// Fragment `k` of a repeated block after the search.
    pub open spec fn row_dispatched(
        self,
        levels: nat,
        host: HostView,
        context: C,
        callback: HostCallback,
        k: int,
    ) -> FragmentView<C>
        decreases levels, self, 0nat, k + 1,
    {
        if self is Each && 0 <= k < self->mounted_fragments.len() && levels > 0 {
            let before = self.rows_dispatched(levels, host, context, callback, k as nat);
            if before.failure is Some || !(before.routing is Unclaimed) {
                self->mounted_fragments[k]
            } else {
                self->mounted_fragments[k].dispatched(
                    (levels - 1) as nat,
                    before.host,
                    before.context,
                    callback,
                ).state
            }
        } else {
            arbitrary()
        }
    }

    pub proof fn lemma_rows_dispatched_stops(
        self,
        levels: nat,
        host: HostView,
        context: C,
        callback: HostCallback,
        k: nat,
        later: nat,
    )
        requires
            self is Each,
            self.rows_dispatched(levels, host, context, callback, k).failure is Some || !(
            self.rows_dispatched(levels, host, context, callback, k).routing is Unclaimed),
            k <= later <= self->mounted_fragments.len(),
        ensures
            self.rows_dispatched(levels, host, context, callback, later) == self.rows_dispatched(
                levels,
                host,
                context,
                callback,
                k,
            ),
        decreases later,
    {
        if later > k {
            self.lemma_rows_dispatched_stops(levels, host, context, callback, k, (later - 1) as nat);
        }
    }

    /// The search for the owner of `callback` below the part. A text binding has nothing
    /// below it. A conditional asks its fragment and a repeated block its fragments, in
    /// order. A child component asks its controller; what the child reports as changed is
    /// handed to the parent through the hook that binds the child, which may change the
    /// parent and says what changed for it.
    pub open spec fn dispatched(
        self,
        levels: nat,
        host: HostView,
        context: C,
        callback: HostCallback,
    ) -> Routed<PartView<C>, C>
        decreases levels, self, 1nat, 0nat,
    {
        match self {
            PartView::Updatable { .. } => Routed {
                state: self,
                context,
                host,
                failure: None,
                routing: RoutingView::Unclaimed,
            },
            _ if levels == 0 => Routed {
                state: self,
                context,
                host,
                failure: Some(Failure::TooDeep),
                routing: RoutingView::Unclaimed,
            },
            PartView::Conditional { check_condition, fragment, anchor, fragment_mounted } => {
                let below = fragment.dispatched((levels - 1) as nat, host, context, callback);
                Routed {
                    state: PartView::Conditional {
                        check_condition,
                        fragment: Box::new(below.state),
                        anchor,
                        fragment_mounted,
                    },
                    context: below.context,
                    host: below.host,
                    failure: below.failure,
                    routing: below.routing,
                }
            },
            PartView::Each { get_items, mounted_fragments, anchor } => {
                let below = self.rows_dispatched(
                    levels,
                    host,
                    context,
                    callback,
                    mounted_fragments.len(),
                );
                Routed {
                    state: PartView::Each {
                        get_items,
                        mounted_fragments: Seq::new(
                            mounted_fragments.len(),
                            |k: int| self.row_dispatched(levels, host, context, callback, k),
                        ),
                        anchor,
                    },
                    context: below.context,
                    host: below.host,
                    failure: below.failure,
                    routing: below.routing,
                }
            },
            PartView::Component { controller, update } => {
                let below = controller.dispatched_bound(
                    (levels - 1) as nat,
                    host,
                    context,
                    callback,
                );
                Routed {
                    state: PartView::Component { controller: Box::new(below.state), update },
                    context: below.context,
                    host: below.host,
                    failure: below.failure,
                    routing: below.routing,
                }
            },
        }
    }
}

/// Whether the search ended as the model says.
pub open spec fn ended<T, X>(r: Result<Routing, Failure>, routed: Routed<T, X>) -> bool {
    match r {
        Ok(routing) => routed.failure is None && routing@ == routed.routing,
        Err(failure) => routed.failure == Some(failure),
    }
}

/// Asks the fragments of a repeated block in order.
fn dispatch_rows<C: Component>(
    fragments: &mut Vec<Fragment<C>>,
    host: &mut Host,
    context: &mut C,
    callback: HostCallback,
    levels: usize,
    Ghost(part): Ghost<PartView<C>>,
) -> (r: Result<Routing, Failure>)
    requires
        old(host)@.wf(),
        levels > 0,
        part is Each,
        part->mounted_fragments == fragment_views(old(fragments)@),
    ensures
        final(host)@.wf(),
        final(fragments)@.len() == old(fragments)@.len(),
        ({
            let routed = part.rows_dispatched(
                levels as nat,
                old(host)@,
                *old(context),
                callback,
                old(fragments)@.len(),
            );
            &&& final(host)@ == routed.host
            &&& *final(context) == routed.context
            &&& ended(r, routed)
            &&& forall|k: int|
                0 <= k < old(fragments)@.len() ==> (#[trigger] final(fragments)@[k]).view()
                    == part.row_dispatched(levels as nat, old(host)@, *old(context), callback, k)
        }),
    decreases levels, 0nat, 1nat,
{
    let ghost start = host@;
    let ghost first = *context;
    let n = fragments.len();
    let mut k: usize = 0;
    while k < n
        invariant
            k <= n,
            n == fragments@.len(),
            n == old(fragments)@.len(),
            levels > 0,
            part is Each,
            part->mounted_fragments == fragment_views(old(fragments)@),
            start == old(host)@,
            first == *old(context),
            host@.wf(),
            part.rows_dispatched(levels as nat, start, first, callback, k as nat) == (Routed {
                state: (),
                context: *context,
                host: host@,
                failure: None::<Failure>,
                routing: RoutingView::Unclaimed,
            }),
            forall|i: int|
                0 <= i < k ==> (#[trigger] fragments@[i]).view() == part.row_dispatched(
                    levels as nat,
                    start,
                    first,
                    callback,
                    i,
                ),
            forall|i: int| k <= i < n ==> fragments@[i] == old(fragments)@[i],
        decreases n - k,
    {
        let ghost reached = host@;
        let ghost parent = *context;
        let fragment = &mut fragments[k];
        assert(fragment.view() == part->mounted_fragments[k as int]);
        let asked = fragment.dispatch_within(host, context, callback, levels - 1);
        let ghost below = part->mounted_fragments[k as int].dispatched(
            (levels - 1) as nat,
            reached,
            parent,
            callback,
        );
        assert(part.rows_dispatched(levels as nat, start, first, callback, (k + 1) as nat) == (
            Routed {
                state: (),
                context: below.context,
                host: below.host,
                failure: below.failure,
                routing: below.routing,
            }
        ));
        let claimed = match asked {
            Ok(Routing::Unclaimed) => false,
            _ => true,
        };
        if claimed {
            proof {
                assert forall|i: int| 0 <= i < n implies (#[trigger] fragments@[i]).view()
                    == part.row_dispatched(levels as nat, start, first, callback, i) by {
                    if i > k {
                        part.lemma_rows_dispatched_stops(
                            levels as nat,
                            start,
                            first,
                            callback,
                            (k + 1) as nat,
                            i as nat,
                        );
                    }
                }
                part.lemma_rows_dispatched_stops(
                    levels as nat,
                    start,
                    first,
                    callback,
                    (k + 1) as nat,
                    n as nat,
                );
            }
            return asked;
        }
        k += 1;
    }
    Ok(Routing::Unclaimed)
}

impl<C: Component> DynamicPart<C> {
    /// Searches for the owner of `callback` below the part.
    pub(crate) fn dispatch(
        &mut self,
        host: &mut Host,
        context: &mut C,
        callback: HostCallback,
        levels: usize,
    ) -> (r: Result<Routing, Failure>)
        requires
            old(host)@.wf(),
        ensures
            final(host)@.wf(),
            ({
                let routed = old(self).view().dispatched(
                    levels as nat,
                    old(host)@,
                    *old(context),
                    callback,
                );
                &&& final(self).view() == routed.state
                &&& final(host)@ == routed.host
                &&& *final(context) == routed.context
                &&& ended(r, routed)
            }),
        decreases levels, 1nat, 0nat,
    {
        let ghost before = self.view();
        match self {
            DynamicPart::Updatable(_) => Ok(Routing::Unclaimed),
            DynamicPart::Conditional(part) => {
                if levels == 0 {
                    return Err(Failure::TooDeep);
                }
                part.fragment.dispatch_within(host, context, callback, levels - 1)
            },
            DynamicPart::Each(part) => {
                if levels == 0 {
                    return Err(Failure::TooDeep);
                }
                let asked = dispatch_rows(
                    &mut part.mounted_fragments,
                    host,
                    context,
                    callback,
                    levels,
                    Ghost(before),
                );
                assert(fragment_views(part.mounted_fragments@) =~= before.dispatched(
                    levels as nat,
                    old(host)@,
                    *old(context),
                    callback,
                ).state->mounted_fragments);
                asked
            },
            DynamicPart::Component(part) => {
                if levels == 0 {
                    return Err(Failure::TooDeep);
                }
                part.controller.dispatch_bound_within(host, context, callback, levels - 1)
            },
        }
    }
}

impl<C: Component> Fragment<C> {
    /// Searches for the owner of `callback` among the child components of the fragment.
    pub(crate) fn dispatch_within(
        &mut self,
        host: &mut Host,
        context: &mut C,
        callback: HostCallback,
        levels: usize,
    ) -> (r: Result<Routing, Failure>)
        requires
            old(host)@.wf(),
        ensures
            final(host)@.wf(),
            ({
                let routed = old(self).view().dispatched(
                    levels as nat,
                    old(host)@,
                    *old(context),
                    callback,
                );
                &&& final(self).view() == routed.state
                &&& final(host)@ == routed.host
                &&& *final(context) == routed.context
                &&& ended(r, routed)
            }),
        decreases levels, 2nat, 0nat,
    {
        let ghost before = self.view();
        let ghost start = host@;
        let ghost first = *context;
        let n = self.parts.len();
        let mut j: usize = 0;
        while j < n
            invariant
                j <= n,
                n == self.parts@.len(),
                n == old(self).parts@.len(),
                before == old(self).view(),
                start == old(host)@,
                first == *old(context),
                self.static_nodes == old(self).static_nodes,
                self.dependencies == old(self).dependencies,
                self.known == old(self).known,
                self.mounted == old(self).mounted,
                self.levels == old(self).levels,
                host@.wf(),
                before.parts_dispatched(levels as nat, start, first, callback, j as nat) == (
                    Routed {
                        state: (),
                        context: *context,
                        host: host@,
                        failure: None::<Failure>,
                        routing: RoutingView::Unclaimed,
                    }
                ),
                forall|i: int|
                    0 <= i < j ==> (#[trigger] self.parts@[i]).0 == old(self).parts@[i].0
                        && self.parts@[i].1.view() == before.part_dispatched(
                        levels as nat,
                        start,
                        first,
                        callback,
                        i,
                    ),
                forall|i: int| j <= i < n ==> self.parts@[i] == old(self).parts@[i],
            decreases n - j,
        {
            let ghost reached = host@;
            let ghost parent = *context;
            let part = &mut self.parts[j];
            let asked = part.1.dispatch(host, context, callback, levels);
            let ghost below = before.parts[j as int].1.dispatched(
                levels as nat,
                reached,
                parent,
                callback,
            );
            assert(before.parts_dispatched(levels as nat, start, first, callback, (j + 1) as nat)
                == (Routed {
                state: (),
                context: below.context,
                host: below.host,
                failure: below.failure,
                routing: below.routing,
            }));
            let claimed = match asked {
                Ok(Routing::Unclaimed) => false,
                _ => true,
            };
            if claimed {
                proof {
                    assert forall|i: int| 0 <= i < n implies (#[trigger] self.view().parts[i]) == (
                        before.parts[i].0,
                        before.part_dispatched(levels as nat, start, first, callback, i),
                    ) by {
                        if i > j {
                            before.lemma_parts_dispatched_stops(
                                levels as nat,
                                start,
                                first,
                                callback,
                                (j + 1) as nat,
                                i as nat,
                            );
                        }
                    }
                    before.lemma_parts_dispatched_stops(
                        levels as nat,
                        start,
                        first,
                        callback,
                        (j + 1) as nat,
                        n as nat,
                    );
                    assert(self.view().parts =~= before.dispatched(
                        levels as nat,
                        start,
                        first,
                        callback,
                    ).state.parts);
                }
                return asked;
            }
            j += 1;
        }
        assert(self.view().parts =~= before.dispatched(
            levels as nat,
            start,
            first,
            callback,
        ).state.parts);
        Ok(Routing::Unclaimed)
    }
}

} // verus!
