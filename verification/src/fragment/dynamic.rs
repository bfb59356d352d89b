//! The dynamic parts of a fragment.

use vstd::prelude::*;
use crate::component::Component;
use crate::controller::Controller;
use crate::fragment::Fragment;
use crate::component::{described, ids_of};
use crate::fragment::builder::FragmentBuilder;
use crate::fragment::event_registry::EventRegistry;
use crate::fragment::location::Location;
use crate::fragment::model::{fragments_detached, lemma_fragments_detached_stops, outcome, unhook};
use crate::fragment::model::{ControllerView, FragmentView, PartView, Step, World};
use crate::host::model::{Failure, NodeId};
use crate::host::Host;

verus! {

/// A text binding: a text node whose content the component produces.
pub struct Updatable {
    /// The number under which the component produces the text.
    pub(crate) get_text: usize,
    /// The text node that is inserted and overwritten.
    pub(crate) text_node: NodeId,
}

/// A conditional: a fragment that is mounted while the component's condition holds.
pub struct Conditional<C> {
    /// The number under which the component decides whether the fragment shows.
    pub(crate) check_condition: usize,
    /// The fragment to mount, built once.
    pub(crate) fragment: Box<Fragment<C>>,
    /// The anchor in front of which the fragment is mounted.
    pub(crate) anchor: NodeId,
    /// Whether the fragment is mounted now.
    pub(crate) fragment_mounted: bool,
}

/// A repeated block: one fragment for each item that the component produces. Every update
/// replaces all fragments.
pub struct Each<C> {
    /// The number under which the component produces the items.
    pub(crate) get_items: usize,
    /// The fragments that are mounted now.
    pub(crate) mounted_fragments: Vec<Fragment<C>>,
    /// The anchor in front of which the fragments are mounted.
    pub(crate) anchor: NodeId,
}

/// A child component, with the controller that owns it.
pub struct NestedComponent<C> {
    pub(crate) controller: Box<Controller<C>>,
    /// The number under which the parent adapts the child.
    pub(crate) update: usize,
}

/// A dynamic part of a fragment.
pub enum DynamicPart<C> {
    Updatable(Updatable),
    Conditional(Conditional<C>),
    Each(Each<C>),
    Component(NestedComponent<C>),
}

impl Updatable {
    /// The number under which the component produces the text.
    pub open(crate) spec fn spec_get_text(&self) -> usize {
        self.get_text
    }

    /// The text node of the binding.
    pub open(crate) spec fn spec_text_node(&self) -> NodeId {
        self.text_node
    }

    /// Makes a text binding that shows what the component produces under `get_text`. Its
    /// text node is created empty.
    pub fn new(host: &mut Host, get_text: usize) -> (part: Self)
        requires
            old(host)@.wf(),
        ensures
            final(host)@.wf(),
            final(host)@ == old(host)@.created(false, Seq::empty()),
            part.spec_get_text() == get_text,
            part.spec_text_node() == old(host)@.nodes.len(),
    {
        let text_node = host.create_text_node("");
        proof {
            reveal_strlit("");
            assert(""@ =~= Seq::<char>::empty());
        }
        Updatable { get_text, text_node }
    }

    /// The text node of the binding.
    pub fn text_node(&self) -> (node: NodeId)
        ensures
            node == self.spec_text_node(),
    {
        self.text_node
    }
}

impl<C> Conditional<C> {
    /// The conditional as a part, seen from contracts.
    pub open(crate) spec fn view(&self) -> PartView<C> {
        PartView::Conditional {
            check_condition: self.check_condition,
            fragment: Box::new(self.fragment.view()),
            anchor: self.anchor,
            fragment_mounted: self.fragment_mounted,
        }
    }

    /// Makes a conditional that shows `fragment` while the component's condition
    /// `check_condition` holds. Its anchor is created; the fragment is hidden.
    pub fn new(host: &mut Host, check_condition: usize, fragment: Fragment<C>) -> (part: Self)
        requires
            old(host)@.wf(),
        ensures
            final(host)@.wf(),
            final(host)@ == old(host)@.created(false, Seq::empty()),
            part.view() == (PartView::Conditional {
                check_condition,
                fragment: Box::new(fragment.view()),
                anchor: old(host)@.nodes.len() as usize,
                fragment_mounted: false,
            }),
    {
        let anchor = host.create_text_node("");
        proof {
            reveal_strlit("");
            assert(""@ =~= Seq::<char>::empty());
        }
        Conditional { check_condition, fragment: Box::new(fragment), anchor, fragment_mounted: false }
    }
}

impl<C> Each<C> {
    /// The repeated block as a part, seen from contracts.
    pub open(crate) spec fn view(&self) -> PartView<C> {
        PartView::Each {
            get_items: self.get_items,
            mounted_fragments: fragment_views(self.mounted_fragments@),
            anchor: self.anchor,
        }
    }

    /// Makes a repeated block for the items that the component produces under `get_items`.
    /// Its anchor is created; it has no fragments yet.
    pub fn new(host: &mut Host, get_items: usize) -> (part: Self)
        requires
            old(host)@.wf(),
        ensures
            final(host)@.wf(),
            final(host)@ == old(host)@.created(false, Seq::empty()),
            part.view() == (PartView::<C>::Each {
                get_items,
                mounted_fragments: Seq::empty(),
                anchor: old(host)@.nodes.len() as usize,
            }),
    {
        let anchor = host.create_text_node("");
        proof {
            reveal_strlit("");
            assert(""@ =~= Seq::<char>::empty());
        }
        let part = Each { get_items, mounted_fragments: Vec::new(), anchor };
        assert(fragment_views(part.mounted_fragments@) =~= Seq::empty());
        part
    }
}

/// What each fragment of a list is, seen from contracts.
pub open spec fn fragment_views<C>(fragments: Seq<Fragment<C>>) -> Seq<FragmentView<C>>
    decreases fragments,
{
    Seq::new(
        fragments.len(),
        |k: int|
            if 0 <= k < fragments.len() {
                fragments[k].view()
            } else {
                arbitrary()
            },
    )
}

impl<C> DynamicPart<C> {
    pub open(crate) spec fn view(&self) -> PartView<C>
        decreases self,
    {
        match self {
            DynamicPart::Updatable(part) => PartView::Updatable {
                get_text: part.get_text,
                text_node: part.text_node,
            },
            DynamicPart::Conditional(part) => PartView::Conditional {
                check_condition: part.check_condition,
                fragment: Box::new(part.fragment.view()),
                anchor: part.anchor,
                fragment_mounted: part.fragment_mounted,
            },
            DynamicPart::Each(part) => PartView::Each {
                get_items: part.get_items,
                mounted_fragments: fragment_views(part.mounted_fragments@),
                anchor: part.anchor,
            },
            DynamicPart::Component(part) => PartView::Component {
                controller: Box::new(part.controller.view()),
                update: part.update,
            },
        }
    }
}


/// Removes `node` from the parent it has.
pub(crate) fn unhook_node(host: &mut Host, node: NodeId) -> (r: Result<(), Failure>)
    requires
        old(host)@.wf(),
    ensures
        final(host)@.wf(),
        final(host)@ == unhook(old(host)@, node).0,
        r == outcome(unhook(old(host)@, node).1),
{
    match host.get_parent(node) {
        None => Err(Failure::Detached),
        Some(parent) => match host.remove_child(parent, node) {
            Ok(_) => Ok(()),
            Err(failure) => Err(failure),
        },
    }
}

/// Detaches the fragments of a repeated block in order.
fn detach_fragments<C: Component>(
    fragments: &mut Vec<Fragment<C>>,
    host: &mut Host,
    top_level: bool,
) -> (r: Result<(), Failure>)
    requires
        old(host)@.wf(),
    ensures
        final(host)@.wf(),
        final(host)@ == fragments_detached(
            fragment_views(old(fragments)@),
            old(host)@,
            top_level,
            old(fragments)@.len(),
        ).0,
        r == outcome(
            fragments_detached(
                fragment_views(old(fragments)@),
                old(host)@,
                top_level,
                old(fragments)@.len(),
            ).1,
        ),
    decreases *old(fragments),
{
    let ghost views = fragment_views(fragments@);
    let ghost start = host@;
    let n = fragments.len();
    let mut k: usize = 0;
    while k < n
        invariant
            k <= n,
            n == fragments@.len(),
            n == old(fragments)@.len(),
            views == fragment_views(old(fragments)@),
            start == old(host)@,
            host@.wf(),
            fragments_detached(views, start, top_level, k as nat) == (host@, None::<Failure>),
            forall|i: int| k <= i < n ==> fragments@[i] == old(fragments)@[i],
        decreases n - k,
    {
        let ghost reached = host@;
        let fragment = &mut fragments[k];
        assert(fragment.view() == views[k as int]);
        let done = fragment.detach(host, top_level);
        assert(fragments_detached(views, start, top_level, (k + 1) as nat) == (
            views[k as int].detached(reached, top_level).1,
            views[k as int].detached(reached, top_level).2,
        ));
        if let Err(failure) = done {
            proof {
                lemma_fragments_detached_stops(views, start, top_level, (k + 1) as nat, n as nat);
            }
            return Err(failure);
        }
        k += 1;
    }
    Ok(())
}

impl<C: Component> DynamicPart<C> {
    /// Detaches the part. A text binding removes its node only at the top level, since below
    /// it the node leaves with the node it is in. A conditional and a repeated block treat
    /// their anchor the same way and detach the fragments they have mounted.
    pub fn detach(&mut self, host: &mut Host, top_level: bool) -> (r: Result<(), Failure>)
        requires
            old(host)@.wf(),
        ensures
            final(host)@.wf(),
            final(self).view() == old(self).view().detached(old(host)@, top_level).0,
            final(host)@ == old(self).view().detached(old(host)@, top_level).1,
            r == outcome(old(self).view().detached(old(host)@, top_level).2),
        decreases *old(self),
    {
        match self {
            DynamicPart::Updatable(part) => {
                if top_level {
                    unhook_node(host, part.text_node)
                } else {
                    Ok(())
                }
            },
            DynamicPart::Conditional(part) => {
                if top_level {
                    let unhooked = unhook_node(host, part.anchor);
                    if let Err(failure) = unhooked {
                        return Err(failure);
                    }
                }
                if part.fragment_mounted {
                    let done = part.fragment.detach(host, top_level);
                    if let Err(failure) = done {
                        return Err(failure);
                    }
                    part.fragment_mounted = false;
                }
                Ok(())
            },
            DynamicPart::Each(part) => {
                let mut fragments: Vec<Fragment<C>> = Vec::new();
                std::mem::swap(&mut fragments, &mut part.mounted_fragments);
                assert(fragment_views(part.mounted_fragments@) =~= Seq::empty());
                let done = detach_fragments(&mut fragments, host, top_level);
                if let Err(failure) = done {
                    return Err(failure);
                }
                if top_level {
                    unhook_node(host, part.anchor)
                } else {
                    Ok(())
                }
            },
            DynamicPart::Component(part) => part.controller.fragment.detach(host, top_level),
        }
    }
}


/// Makes one fragment of a repeated block: builds it one level further down, mounts it in
/// front of the anchor and updates it fully.
fn make_row<C: Component>(
    item: FragmentBuilder<C>,
    host: &mut Host,
    registry: &mut EventRegistry,
    context: &C,
    anchor: NodeId,
    levels: usize,
    Ghost(part): Ghost<PartView<C>>,
) -> (r: Result<Fragment<C>, Failure>)
    requires
        old(host)@.wf(),
    ensures
        final(host)@.wf(),
        ({
            let step = part.row(
                levels as nat,
                World { host: old(host)@, registry: old(registry)@ },
                *context,
                anchor,
                item@,
            );
            &&& final(host)@ == step.world.host
            &&& final(registry)@ == step.world.registry
            &&& match r {
                Ok(fragment) => step.failure is None && fragment.view() == step.state,
                Err(failure) => step.failure == Some(failure),
            }
        }),
    decreases levels, 0nat, 0nat,
{
    if levels == 0 {
        return Err(Failure::TooDeep);
    }
    let at = match Location::anchor(host, anchor) {
        Ok(at) => at,
        Err(failure) => {
            return Err(failure);
        },
    };
    let mut fragment = match item.build_within(host, registry, levels - 1) {
        Ok(fragment) => fragment,
        Err(failure) => {
            return Err(failure);
        },
    };
    if let Err(failure) = fragment.mount_within(host, &at, levels - 1) {
        return Err(failure);
    }
    if let Err(failure) = fragment.full_update_within(host, registry, context, levels - 1) {
        return Err(failure);
    }
    Ok(fragment)
}

/// Makes the fragments of a repeated block from the items, in order.
fn make_rows<C: Component>(
    items: Vec<FragmentBuilder<C>>,
    fragments: &mut Vec<Fragment<C>>,
    host: &mut Host,
    registry: &mut EventRegistry,
    context: &C,
    anchor: NodeId,
    levels: usize,
    Ghost(part): Ghost<PartView<C>>,
) -> (r: Result<(), Failure>)
    requires
        old(host)@.wf(),
        old(fragments)@.len() == 0,
    ensures
        final(host)@.wf(),
        ({
            let step = part.rows(
                levels as nat,
                World { host: old(host)@, registry: old(registry)@ },
                *context,
                anchor,
                described(items@),
                items@.len(),
            );
            &&& fragment_views(final(fragments)@) == step.state
            &&& final(host)@ == step.world.host
            &&& final(registry)@ == step.world.registry
            &&& r == outcome(step.failure)
        }),
    decreases levels, 0nat, 1nat,
{
    let ghost start = World { host: host@, registry: registry@ };
    let ghost all = described(items@);
    let ghost builders = items@;
    assert(fragment_views(fragments@) =~= Seq::empty());
    for item in iter: items
        invariant
            iter.seq() == builders,
            builders == items@,
            all == described(builders),
            start == (World { host: old(host)@, registry: old(registry)@ }),
            host@.wf(),
            part.rows(levels as nat, start, *context, anchor, all, iter.index() as nat) == (Step {
                state: fragment_views(fragments@),
                world: World { host: host@, registry: registry@ },
                failure: None::<Failure>,
            }),
    {
        let ghost k = iter.index();
        assert(item@ == all[k as int]);
        let ghost so_far = fragment_views(fragments@);
        let ghost reached = World { host: host@, registry: registry@ };
        let made = make_row(item, host, registry, context, anchor, levels, Ghost(part));
        let ghost step = part.row(levels as nat, reached, *context, anchor, all[k as int]);
        assert(part.rows(levels as nat, start, *context, anchor, all, (k + 1) as nat) == (Step {
            state: if step.failure is Some {
                so_far
            } else {
                so_far.push(step.state)
            },
            world: step.world,
            failure: step.failure,
        }));
        match made {
            Ok(fragment) => {
                fragments.push(fragment);
                assert(fragment_views(fragments@) =~= so_far.push(fragment.view()));
            },
            Err(failure) => {
                proof {
                    lemma_rows_stop(
                        part,
                        levels as nat,
                        start,
                        *context,
                        anchor,
                        all,
                        (k + 1) as nat,
                        all.len(),
                    );
                }
                return Err(failure);
            },
        }
    }
    Ok(())
}

impl<C: Component> DynamicPart<C> {
    /// Mounts the part at `location`: a text binding inserts its text node, a conditional and
    /// a repeated block insert their anchor, a child component mounts its controller.
    /// `levels` is the number of levels of nested fragments that may stand below the
    /// fragment of the part.
    pub fn mount(&mut self, host: &mut Host, location: &Location, levels: usize) -> (r:
        Result<(), Failure>)
        requires
            old(host)@.wf(),
        ensures
            final(host)@.wf(),
            final(self).view() == old(self).view().mounted_at(
                levels as nat,
                old(host)@,
                *location,
            ).0,
            final(host)@ == old(self).view().mounted_at(levels as nat, old(host)@, *location).1,
            r == outcome(old(self).view().mounted_at(levels as nat, old(host)@, *location).2),
        decreases levels, 1nat, 0nat,
    {
        match self {
            DynamicPart::Updatable(part) => match location.mount(host, part.text_node) {
                Ok(_) => Ok(()),
                Err(failure) => Err(failure),
            },
            DynamicPart::Conditional(part) => match location.mount(host, part.anchor) {
                Ok(_) => Ok(()),
                Err(failure) => Err(failure),
            },
            DynamicPart::Each(part) => match location.mount(host, part.anchor) {
                Ok(_) => Ok(()),
                Err(failure) => Err(failure),
            },
            DynamicPart::Component(part) => {
                if levels == 0 {
                    Err(Failure::TooDeep)
                } else {
                    part.controller.mount_within(host, location, levels - 1)
                }
            },
        }
    }

    /// Updates the part. A text binding overwrites its text with what the component produces
    /// now. A conditional mounts its fragment if the condition holds now and did not, detaches
    /// it if the condition held and does not now, and passes the update on to it if it shows
    /// as before. A repeated block detaches all its fragments and makes new ones from the
    /// items that the component produces now. A child component is adapted by the parent and
    /// updated for what that changed in it. Only what goes down into a nested fragment needs
    /// a level of `levels`.
    pub fn update(
        &mut self,
        host: &mut Host,
        registry: &mut EventRegistry,
        context: &C,
        changed: &[usize],
        levels: usize,
    ) -> (r: Result<(), Failure>)
        requires
            old(host)@.wf(),
        ensures
            final(host)@.wf(),
            ({
                let step = old(self).view().updated(
                    levels as nat,
                    World { host: old(host)@, registry: old(registry)@ },
                    *context,
                    changed@,
                );
                &&& final(self).view() == step.state
                &&& final(host)@ == step.world.host
                &&& final(registry)@ == step.world.registry
                &&& r == outcome(step.failure)
            }),
        decreases levels, 1nat, 0nat,
    {
        let ghost before = self.view();
        let ghost world = World { host: host@, registry: registry@ };
        match self {
            DynamicPart::Updatable(part) => {
                let text = context.get_text(part.get_text);
                match host.set_text_data(part.text_node, text.as_str()) {
                    Ok(_) => Ok(()),
                    Err(failure) => Err(failure),
                }
            },
            DynamicPart::Conditional(part) => {
                let shows = context.check_condition(part.check_condition);
                if !shows && part.fragment_mounted {
                    if let Err(failure) = part.fragment.detach(host, true) {
                        return Err(failure);
                    }
                    part.fragment_mounted = false;
                    Ok(())
                } else if !shows {
                    Ok(())
                } else if levels == 0 {
                    Err(Failure::TooDeep)
                } else if !part.fragment_mounted {
                    let at = match Location::anchor(host, part.anchor) {
                        Ok(at) => at,
                        Err(failure) => {
                            return Err(failure);
                        },
                    };
                    if let Err(failure) = part.fragment.mount_within(host, &at, levels - 1) {
                        return Err(failure);
                    }
                    if let Err(failure) = part.fragment.full_update_within(
                        host,
                        registry,
                        context,
                        levels - 1,
                    ) {
                        return Err(failure);
                    }
                    part.fragment_mounted = true;
                    Ok(())
                } else {
                    part.fragment.update_within(host, registry, context, changed, levels - 1)
                }
            },
            DynamicPart::Each(part) => {
                let mut fragments: Vec<Fragment<C>> = Vec::new();
                std::mem::swap(&mut fragments, &mut part.mounted_fragments);
                assert(fragment_views(part.mounted_fragments@) =~= Seq::empty());
                if let Err(failure) = detach_fragments(&mut fragments, host, true) {
                    return Err(failure);
                }
                let items = context.get_items(part.get_items);
                make_rows(
                    items,
                    &mut part.mounted_fragments,
                    host,
                    registry,
                    context,
                    part.anchor,
                    levels,
                    Ghost(before),
                )
            },
            DynamicPart::Component(part) => {
                let controller = &mut *part.controller;
                let passed = context.update_component(
                    part.update,
                    &mut controller.component,
                    changed,
                );
                match passed {
                    None => Ok(()),
                    Some(_) if levels == 0 => Err(Failure::TooDeep),
                    Some(ids) => controller.fragment.update_within(
                        host,
                        &mut controller.event_registry,
                        &controller.component,
                        ids.as_slice(),
                        levels - 1,
                    ),
                }
            },
        }
    }
}

/// Once a row has failed, no more rows are made.
proof fn lemma_rows_stop<C: Component>(
    part: PartView<C>,
    levels: nat,
    world: World,
    context: C,
    anchor: NodeId,
    items: Seq<crate::fragment::builder::BuilderView<C>>,
    k: nat,
    later: nat,
)
    requires
        part.rows(levels, world, context, anchor, items, k).failure is Some,
        k <= later <= items.len(),
    ensures
        part.rows(levels, world, context, anchor, items, later) == part.rows(
            levels,
            world,
            context,
            anchor,
            items,
            k,
        ),
    decreases later,
{
    if later > k {
        lemma_rows_stop(part, levels, world, context, anchor, items, k, (later - 1) as nat);
    }
}

} // verus!
