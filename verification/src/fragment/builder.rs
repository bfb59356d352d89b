//! The description of a fragment, made before any host node exists.

use vstd::prelude::*;
use vstd::slice::slice_to_vec;
use crate::component::Component;
use crate::controller::Controller;
use crate::fragment::dynamic::{Conditional, DynamicPart, Each, NestedComponent, Updatable};
use crate::fragment::event_registry::EventRegistry;
use crate::fragment::model::{list_of, noted, registered, FragmentView, PartView, Step, World};
use crate::fragment::node::{Node, NodeSpec};
use crate::fragment::{part_views, Fragment};
use crate::host::model::{Failure, NodeId};
use crate::host::Host;
use crate::util::hash_map_list::HashMapList;

verus! {

broadcast use vstd::std_specs::hash::group_hash_axioms;

/// A static node of a builder, with the static node it goes into.
pub struct NodeBuilder {
    node: Node,
    location: Option<usize>,
}

/// What is common to the builders of all dynamic parts.
pub struct Builder<T> {
    /// The dependency ids whose change makes the part update.
    dependencies: Vec<usize>,
    /// The index of the static node that the part is mounted into; `None` for the place
    /// where the fragment itself is mounted.
    location: Option<usize>,
    /// What is particular to the kind of part.
    builder: T,
}

/// What is particular to each kind of dynamic part. A producer is the number under which the
/// component answers for the part.
pub enum DynamicBuilder<C> {
    /// A text node whose content the component produces.
    Updatable { get_text: usize },
    /// A nested fragment that shows while the component says so.
    Conditional { check_condition: usize, fragment: Box<FragmentBuilder<C>> },
    /// A fragment for each item that the component produces.
    Each { get_items: usize },
    /// A child component with a controller of its own.
    Component { component: C, register_event: usize, update: usize, bound_update: Option<usize> },
}

/// The description of a fragment: its static nodes and its dynamic parts, in the order in
/// which they were added. Nothing is checked before the fragment is built.
pub struct FragmentBuilder<C> {
    nodes: Vec<NodeBuilder>,
    parts: Vec<Builder<DynamicBuilder<C>>>,
}

/// A dynamic part of a builder, seen from contracts.
pub ghost struct PartSpec<C> {
    pub dependencies: Seq<usize>,
    pub location: Option<usize>,
    pub kind: PartKind<C>,
}

pub ghost enum PartKind<C> {
    Updatable { get_text: usize },
    Conditional { check_condition: usize, fragment: Box<BuilderView<C>> },
    Each { get_items: usize },
    Component { component: C, register_event: usize, update: usize, bound_update: Option<usize> },
}

/// A fragment builder, seen from contracts.
pub ghost struct BuilderView<C> {
    pub nodes: Seq<(NodeSpec, Option<usize>)>,
    pub parts: Seq<PartSpec<C>>,
}

impl<C> BuilderView<C> {
    pub open spec fn empty() -> BuilderView<C> {
        BuilderView { nodes: Seq::empty(), parts: Seq::empty() }
    }

    pub open spec fn with_node(self, node: NodeSpec, location: Option<usize>) -> BuilderView<C> {
        BuilderView { nodes: self.nodes.push((node, location)), ..self }
    }

    pub open spec fn with_part(
        self,
        dependencies: Seq<usize>,
        location: Option<usize>,
        kind: PartKind<C>,
    ) -> BuilderView<C> {
        BuilderView { parts: self.parts.push(PartSpec { dependencies, location, kind }), ..self }
    }

    /// Every static node goes into one listed before it, and every dynamic part into a
    /// listed static node. Nested builders are judged when they are built.
    pub open spec fn well_formed(self) -> bool {
        &&& forall|k: int|
            0 <= k < self.nodes.len() ==> match (#[trigger] self.nodes[k]).1 {
                Some(parent) => parent < k,
                None => true,
            }
        &&& forall|j: int|
            0 <= j < self.parts.len() ==> match (#[trigger] self.parts[j]).location {
                Some(parent) => parent < self.nodes.len(),
                None => true,
            }
    }
}

impl<T> Builder<T> {
    /// Wraps the builder of a part with its dependencies and its place.
    pub fn new(dependencies: &[usize], location: Option<usize>, builder: T) -> (wrapped: Self)
        ensures
            wrapped.spec_dependencies() == dependencies@,
            wrapped.spec_location() == location,
            wrapped.spec_builder() == builder,
    {
        Builder { dependencies: slice_to_vec(dependencies), location, builder }
    }

    pub closed spec fn spec_dependencies(&self) -> Seq<usize> {
        self.dependencies@
    }

    pub closed spec fn spec_location(&self) -> Option<usize> {
        self.location
    }

    pub closed spec fn spec_builder(&self) -> T {
        self.builder
    }

    /// The dependency ids of the part.
    pub fn dependencies(&self) -> (dependencies: &[usize])
        ensures
            dependencies@ == self.spec_dependencies(),
    {
        self.dependencies.as_slice()
    }

    /// The index of the static node that the part goes into.
    pub fn location(&self) -> (location: Option<usize>)
        ensures
            location == self.spec_location(),
    {
        self.location
    }

    /// What is particular to the kind of part.
    pub fn builder(&self) -> (builder: &T)
        ensures
            *builder == self.spec_builder(),
    {
        &self.builder
    }
}

impl<C> DynamicBuilder<C> {
    pub closed spec fn view(&self) -> PartKind<C>
        decreases self,
    {
        match self {
            DynamicBuilder::Updatable { get_text } => PartKind::Updatable { get_text: *get_text },
            DynamicBuilder::Conditional { check_condition, fragment } => PartKind::Conditional {
                check_condition: *check_condition,
                fragment: Box::new(fragment.view()),
            },
            DynamicBuilder::Each { get_items } => PartKind::Each { get_items: *get_items },
            DynamicBuilder::Component { component, register_event, update, bound_update } => {
                PartKind::Component {
                    component: *component,
                    register_event: *register_event,
                    update: *update,
                    bound_update: *bound_update,
                }
            },
        }
    }
}

impl<C> FragmentBuilder<C> {
    pub closed spec fn view(&self) -> BuilderView<C>
        decreases self,
    {
        BuilderView {
            nodes: Seq::new(
                self.nodes@.len(),
                |k: int| (self.nodes@[k].node@, self.nodes@[k].location),
            ),
            parts: Seq::new(
                self.parts@.len(),
                |j: int|
                    if 0 <= j < self.parts@.len() {
                        PartSpec {
                            dependencies: self.parts@[j].dependencies@,
                            location: self.parts@[j].location,
                            kind: self.parts@[j].builder.view(),
                        }
                    } else {
                        arbitrary()
                    },
            ),
        }
    }

    /// A builder without nodes and parts.
    pub fn new() -> (builder: Self)
        ensures
            builder@ == BuilderView::<C>::empty(),
    {
        let builder = FragmentBuilder { nodes: Vec::new(), parts: Vec::new() };
        assert(builder@.nodes =~= Seq::empty());
        assert(builder@.parts =~= Seq::empty());
        builder
    }

    /// Adds a static node. `location` is the index of the static node it goes into.
    pub fn with_node(self, node: Node, location: Option<usize>) -> (builder: Self)
        ensures
            builder@ == self@.with_node(node@, location),
    {
        let mut builder = self;
        builder.nodes.push(NodeBuilder { node, location });
        assert(builder@.nodes =~= self@.nodes.push((node@, location)));
        assert(builder@.parts =~= self@.parts);
        builder
    }

    /// Adds a static element with the given tag.
    pub fn with_element(self, kind: &str, location: Option<usize>) -> (builder: Self)
        ensures
            builder@ == self@.with_node(
                NodeSpec { element: true, data: kind@, events: Seq::empty() },
                location,
            ),
    {
        self.with_node(Node::element(kind), location)
    }

    /// Adds a static text node with the given content.
    pub fn with_text(self, content: &str, location: Option<usize>) -> (builder: Self)
        ensures
            builder@ == self@.with_node(
                NodeSpec { element: false, data: content@, events: Seq::empty() },
                location,
            ),
    {
        self.with_node(Node::text(content), location)
    }

    fn with_part(self, dependencies: &[usize], location: Option<usize>, part: DynamicBuilder<C>)
        -> (builder: Self)
        ensures
            builder@ == self@.with_part(dependencies@, location, part.view()),
    {
        let mut builder = self;
        builder.parts.push(Builder::new(dependencies, location, part));
        assert(builder@.nodes =~= self@.nodes);
        assert(builder@.parts =~= self@.parts.push(
            PartSpec { dependencies: dependencies@, location, kind: part.view() },
        ));
        builder
    }

    /// Adds a text binding: a text node that shows what the component produces under
    /// `get_text`.
    pub fn with_updatable(self, dependencies: &[usize], location: Option<usize>, get_text: usize)
        -> (builder: Self)
        ensures
            builder@ == self@.with_part(
                dependencies@,
                location,
                PartKind::Updatable { get_text },
            ),
    {
        self.with_part(dependencies, location, DynamicBuilder::Updatable { get_text })
    }

    /// Adds a conditional: `fragment` shows while the component's condition `check_condition`
    /// holds.
    pub fn with_conditional(
        self,
        dependencies: &[usize],
        location: Option<usize>,
        check_condition: usize,
        fragment: FragmentBuilder<C>,
    ) -> (builder: Self)
        ensures
            builder@ == self@.with_part(
                dependencies@,
                location,
                PartKind::Conditional { check_condition, fragment: Box::new(fragment@) },
            ),
    {
        self.with_part(
            dependencies,
            location,
            DynamicBuilder::Conditional { check_condition, fragment: Box::new(fragment) },
        )
    }

    /// Adds a repeated block: one fragment for each item that the component produces under
    /// `get_items`.
    pub fn with_each(self, dependencies: &[usize], location: Option<usize>, get_items: usize)
        -> (builder: Self)
        ensures
            builder@ == self@.with_part(dependencies@, location, PartKind::Each { get_items }),
    {
        self.with_part(dependencies, location, DynamicBuilder::Each { get_items })
    }

    /// Adds a child component. Its controller gets the token `register_event`; `update` is
    /// the number under which the parent adapts the child to its own changes, `bound_update`
    /// the number under which the parent takes over changes that the child makes itself.
    pub fn with_component(
        self,
        dependencies: &[usize],
        location: Option<usize>,
        component: C,
        register_event: usize,
        update: usize,
        bound_update: Option<usize>,
    ) -> (builder: Self)
        ensures
            builder@ == self@.with_part(
                dependencies@,
                location,
                PartKind::Component { component, register_event, update, bound_update },
            ),
    {
        self.with_part(
            dependencies,
            location,
            DynamicBuilder::Component { component, register_event, update, bound_update },
        )
    }
}


/// Registers part `part` under each of its dependency ids.
fn register_dependencies(
    dependencies: &mut HashMapList<usize, usize>,
    known: &mut Vec<usize>,
    part: usize,
    ids: &Vec<usize>,
)
    ensures
        (final(dependencies)@, final(known)@) == noted(
            old(dependencies)@,
            old(known)@,
            ids@,
            part,
            ids@.len(),
        ),
{
    let ghost index = dependencies@;
    let ghost seen = known@;
    let mut k: usize = 0;
    while k < ids.len()
        invariant
            k <= ids@.len(),
            (dependencies@, known@) == noted(index, seen, ids@, part, k as nat),
        decreases ids@.len() - k,
    {
        let id = ids[k];
        let ghost now = dependencies@;
        if dependencies.get(&id).is_none() {
            known.push(id);
        }
        dependencies.insert(id, part);
        assert(dependencies@ == now.insert(id, list_of(now, id).push(part)));
        k += 1;
    }
}

impl<C: Component> DynamicBuilder<C> {
    /// Makes the part, with `levels` levels of nested fragments to go.
    pub(crate) fn build(self, host: &mut Host, registry: &mut EventRegistry, levels: usize) -> (r:
        Result<DynamicPart<C>, Failure>)
        requires
            old(host)@.wf(),
        ensures
            final(host)@.wf(),
            ({
                let step = self.view().built(
                    levels as nat,
                    World { host: old(host)@, registry: old(registry)@ },
                );
                &&& final(host)@ == step.world.host
                &&& final(registry)@ == step.world.registry
                &&& match r {
                    Ok(part) => step.failure is None && part.view() == step.state,
                    Err(failure) => step.failure == Some(failure),
                }
            }),
        decreases levels, 1nat, 0nat,
    {
        match self {
            DynamicBuilder::Updatable { get_text } => Ok(
                DynamicPart::Updatable(Updatable::new(host, get_text)),
            ),
            DynamicBuilder::Conditional { check_condition, fragment } => {
                if levels == 0 {
                    return Err(Failure::TooDeep);
                }
                let nested = match (*fragment).build_within(host, registry, levels - 1) {
                    Ok(nested) => nested,
                    Err(failure) => {
                        return Err(failure);
                    },
                };
                Ok(DynamicPart::Conditional(Conditional::new(host, check_condition, nested)))
            },
            DynamicBuilder::Each { get_items } => {
                Ok(DynamicPart::Each(Each::new(host, get_items)))
            },
            DynamicBuilder::Component { component, register_event, update, bound_update } => {
                if levels == 0 {
                    return Err(Failure::TooDeep);
                }
                let mut event_registry = EventRegistry::new(register_event);
                let builder = component.render();
                match builder.build_within(host, &mut event_registry, levels - 1) {
                    Ok(fragment) => Ok(
                        DynamicPart::Component(
                            NestedComponent {
                                controller: Box::new(
                                    Controller { component, event_registry, fragment, bound_update },
                                ),
                                update,
                            },
                        ),
                    ),
                    Err(failure) => Err(failure),
                }
            },
        }
    }
}

impl<C: Component> FragmentBuilder<C> {
    /// Whether every index of the builder names a static node that was listed before.
    pub fn is_well_formed(&self) -> (b: bool)
        ensures
            b == self@.well_formed(),
    {
        let mut k: usize = 0;
        while k < self.nodes.len()
            invariant
                k <= self.nodes@.len(),
                forall|i: int|
                    0 <= i < k ==> match (#[trigger] self@.nodes[i]).1 {
                        Some(parent) => parent < i,
                        None => true,
                    },
            decreases self.nodes@.len() - k,
        {
            if let Some(parent) = self.nodes[k].location {
                if parent >= k {
                    assert(self@.nodes[k as int].1 == Some(parent));
                    return false;
                }
            }
            k += 1;
        }
        let mut j: usize = 0;
        while j < self.parts.len()
            invariant
                j <= self.parts@.len(),
                forall|i: int|
                    0 <= i < self.nodes@.len() ==> match (#[trigger] self@.nodes[i]).1 {
                        Some(parent) => parent < i,
                        None => true,
                    },
                forall|i: int|
                    0 <= i < j ==> match (#[trigger] self@.parts[i]).location {
                        Some(parent) => parent < self@.nodes.len(),
                        None => true,
                    },
            decreases self.parts@.len() - j,
        {
            if let Some(parent) = self.parts[j].location {
                if parent >= self.nodes.len() {
                    assert(self@.parts[j as int].location == Some(parent));
                    return false;
                }
            }
            j += 1;
        }
        true
    }

    /// Builds the fragment as [`FragmentBuilder::build`] does, but lets no more than `levels`
    /// levels of fragments come to stand below it: the fragment of a conditional, the
    /// fragments of a repeated block and the fragment of a child component are each one
    /// level further down. What would go deeper fails with [`Failure::TooDeep`].
    pub fn build_within(self, host: &mut Host, registry: &mut EventRegistry, levels: usize)
        -> (r: Result<Fragment<C>, Failure>)
        requires
            old(host)@.wf(),
        ensures
            final(host)@.wf(),
            ({
                let step = self@.built(
                    levels as nat,
                    World { host: old(host)@, registry: old(registry)@ },
                );
                &&& final(host)@ == step.world.host
                &&& final(registry)@ == step.world.registry
                &&& match r {
                    Ok(fragment) => step.failure is None && fragment.view() == step.state,
                    Err(failure) => step.failure == Some(failure),
                }
            }),
        decreases levels, 2nat, 0nat,
    {
        if !self.is_well_formed() {
            return Err(Failure::BadParentIndex);
        }
        let ghost plan = self@;
        let ghost world = World { host: host@, registry: registry@ };
        let FragmentBuilder { nodes, parts } = self;
        let mut static_nodes: Vec<(Option<usize>, NodeId)> = Vec::new();
        let mut k: usize = 0;
        while k < nodes.len()
            invariant
                k <= nodes@.len(),
                nodes@.len() == plan.nodes.len(),
                forall|i: int|
                    0 <= i < nodes@.len() ==> plan.nodes[i] == (
                        (#[trigger] nodes@[i]).node@,
                        nodes@[i].location,
                    ),
                host@.wf(),
                plan.nodes_built(world, k as nat) == (World { host: host@, registry: registry@ }),
                static_nodes@.len() == k,
                forall|i: int|
                    0 <= i < k ==> #[trigger] static_nodes@[i] == plan.statics(world)[i],
            decreases nodes@.len() - k,
        {
            let node = nodes[k].node.create_node(host, registry);
            static_nodes.push((nodes[k].location, node));
            k += 1;
        }
        assert(static_nodes@ =~= plan.statics(world));
        let ghost with_nodes = World { host: host@, registry: registry@ };
        let mut built: Vec<(Option<usize>, DynamicPart<C>)> = Vec::new();
        let mut dependencies: HashMapList<usize, usize> = HashMapList::new();
        let mut known: Vec<usize> = Vec::new();
        let ghost all = parts@;
        for part in iter: parts
            invariant
                iter.seq() == all,
                plan == self@,
                plan.well_formed(),
                world == (World { host: old(host)@, registry: old(registry)@ }),
                with_nodes == plan.nodes_built(world, plan.nodes.len()),
                all.len() == plan.parts.len(),
                forall|i: int|
                    0 <= i < all.len() ==> plan.parts[i] == (PartSpec {
                        dependencies: (#[trigger] all[i]).dependencies@,
                        location: all[i].location,
                        kind: all[i].builder.view(),
                    }),
                host@.wf(),
                plan.parts_built(levels as nat, with_nodes, iter.index() as nat) == (
                    World { host: host@, registry: registry@ },
                    None::<Failure>,
                ),
                built@.len() == iter.index(),
                forall|i: int|
                    0 <= i < iter.index() ==> (#[trigger] built@[i]).0 == plan.parts[i].location
                        && built@[i].1.view() == plan.part_built(levels as nat, with_nodes, i),
                (dependencies@, known@) == registered(plan.parts, iter.index() as nat),
        {
            let ghost j = iter.index();
            let Builder { dependencies: ids, location, builder } = part;
            assert(plan.parts[j as int].kind == builder.view());
            match builder.build(host, registry, levels) {
                Ok(made) => {
                    register_dependencies(&mut dependencies, &mut known, built.len(), &ids);
                    built.push((location, made));
                },
                Err(failure) => {
                    proof {
                        lemma_parts_built_stop(
                            plan,
                            levels as nat,
                            with_nodes,
                            (j + 1) as nat,
                            plan.parts.len(),
                        );
                    }
                    return Err(failure);
                },
            }
        }
        let fragment = Fragment {
            static_nodes,
            parts: built,
            dependencies,
            known,
            mounted: false,
            levels,
        };
        assert(fragment.view().parts =~= plan.built(levels as nat, world).state.parts);
        Ok(fragment)
    }
}

/// Once a part has failed to build, no more parts are built.
proof fn lemma_parts_built_stop<C: Component>(
    plan: BuilderView<C>,
    levels: nat,
    world: World,
    j: nat,
    later: nat,
)
    requires
        plan.parts_built(levels, world, j).1 is Some,
        j <= later <= plan.parts.len(),
    ensures
        plan.parts_built(levels, world, later) == plan.parts_built(levels, world, j),
    decreases later,
{
    if later > j {
        lemma_parts_built_stop(plan, levels, world, j, (later - 1) as nat);
    }
}


impl<C: Component> FragmentBuilder<C> {
    /// Builds the fragment: creates the host node of every static description, with its
    /// listeners, then every dynamic part, and registers each part under its dependency ids.
    /// The fragment is not mounted. Fails with [`Failure::BadParentIndex`], and changes
    /// nothing, if the builder is not well-formed.
    pub fn build(self, host: &mut Host, event_registry: &mut EventRegistry) -> (r: Result<
        Fragment<C>,
        Failure,
    >)
        requires
            old(host)@.wf(),
        ensures
            final(host)@.wf(),
            ({
                let step = self@.built(
                    usize::MAX as nat,
                    World { host: old(host)@, registry: old(event_registry)@ },
                );
                &&& final(host)@ == step.world.host
                &&& final(event_registry)@ == step.world.registry
                &&& match r {
                    Ok(fragment) => step.failure is None && fragment.view() == step.state,
                    Err(failure) => step.failure == Some(failure),
                }
            }),
    {
        self.build_within(host, event_registry, usize::MAX)
    }
}

} // verus!
