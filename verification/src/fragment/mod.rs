//! Fragments and their dynamic parts.

pub mod aside;
pub mod builder;
pub mod dynamic;
pub mod event_registry;
pub mod exposure;
pub mod frame;
pub mod growth;
pub mod laws;
pub mod liveness;
pub mod location;
pub mod model;
pub mod node;
pub mod order;
pub mod ownership;
pub mod routing;
pub mod seat;
pub mod symmetry;

pub use self::event_registry::EventRegistry;
pub use self::location::Location;
pub use self::node::{Node, NodeType};

use vstd::prelude::*;
use self::dynamic::DynamicPart;
use vstd::slice::slice_to_vec;
use self::builder::FragmentBuilder;
use self::dynamic::unhook_node;
use self::model::{list_of, outcome, place, selects};
use self::model::{FragmentView, PartView, World};
use crate::component::Component;
use crate::host::model::{Failure, NodeId};
use crate::host::Host;
use crate::util::hash_map_list::HashMapList;

verus! {

broadcast use vstd::std_specs::hash::group_hash_axioms;

/// A realized fragment: the host nodes made from the static descriptions of a builder, the
/// dynamic parts made from its part builders, and the index from dependency ids to parts.
pub struct Fragment<C> {
    /// Each static node with the index of the static node it goes into.
    pub(crate) static_nodes: Vec<(Option<usize>, NodeId)>,
    /// Each dynamic part with the index of the static node it goes into.
    pub(crate) parts: Vec<(Option<usize>, DynamicPart<C>)>,
    /// For each dependency id, the parts registered under it.
    pub(crate) dependencies: HashMapList<usize, usize>,
    /// The dependency ids in the order in which they were first registered.
    pub(crate) known: Vec<usize>,
    /// Whether the fragment is mounted now.
    pub(crate) mounted: bool,
    /// How many more levels of nested fragments may be built below this one.
    pub(crate) levels: usize,
}

/// What each part of a list is, seen from contracts.
pub open spec fn part_views<C>(parts: Seq<(Option<usize>, DynamicPart<C>)>) -> Seq<
    (Option<usize>, PartView<C>),
>
    decreases parts,
{
    Seq::new(
        parts.len(),
        |j: int|
            if 0 <= j < parts.len() {
                (parts[j].0, parts[j].1.view())
            } else {
                arbitrary()
            },
    )
}

impl<C> Fragment<C> {
    pub open(crate) spec fn view(&self) -> FragmentView<C>
        decreases self,
    {
        FragmentView {
            statics: self.static_nodes@,
            parts: part_views(self.parts@),
            dependencies: self.dependencies@,
            known: self.known@,
            mounted: self.mounted,
            levels: self.levels,
        }
    }
}


impl<C: Component> Fragment<C> {
    /// Detaches the fragment; a fragment that is not mounted stays as it is. Every static
    /// node that goes into no other static node is removed from its parent; the others leave
    /// the tree with the node they are in. Then every part is detached.
    pub fn detach(&mut self, host: &mut Host, top_level: bool) -> (r: Result<(), Failure>)
        requires
            old(host)@.wf(),
        ensures
            final(host)@.wf(),
            final(self).view() == old(self).view().detached(old(host)@, top_level).0,
            final(host)@ == old(self).view().detached(old(host)@, top_level).1,
            r == outcome(old(self).view().detached(old(host)@, top_level).2),
        decreases *old(self),
    {
        if !self.mounted {
            return Ok(());
        }
        let ghost before = self.view();
        let ghost start = host@;
        let count = self.static_nodes.len();
        let mut k: usize = 0;
        while k < count
            invariant
                k <= count,
                count == self.static_nodes@.len(),
                *self == *old(self),
                before == self.view(),
                before.mounted,
                start == old(host)@,
                host@.wf(),
                before.statics_detached(start, k as nat) == (host@, None::<Failure>),
            decreases count - k,
        {
            if self.static_nodes[k].0.is_none() {
                let unhooked = unhook_node(host, self.static_nodes[k].1);
                if let Err(failure) = unhooked {
                    proof {
                        before.lemma_statics_detached_stops(start, (k + 1) as nat, count as nat);
                    }
                    return Err(failure);
                }
            }
            k += 1;
        }
        let ghost cleared = host@;
        let n = self.parts.len();
        let mut j: usize = 0;
        while j < n
            invariant
                j <= n,
                n == self.parts@.len(),
                n == old(self).parts@.len(),
                before == old(self).view(),
                before.mounted,
                start == old(host)@,
                before.statics_detached(start, before.statics.len()) == (cleared, None::<Failure>),
                self.static_nodes == old(self).static_nodes,
                self.dependencies == old(self).dependencies,
                self.known == old(self).known,
                self.mounted == old(self).mounted,
                self.levels == old(self).levels,
                host@.wf(),
                before.parts_detached(cleared, top_level, j as nat) == (host@, None::<Failure>),
                forall|i: int|
                    0 <= i < j ==> (#[trigger] self.parts@[i]).0 == old(self).parts@[i].0
                        && self.parts@[i].1.view() == before.part_detached(cleared, top_level, i),
                forall|i: int| j <= i < n ==> self.parts@[i] == old(self).parts@[i],
            decreases n - j,
        {
            let part = &mut self.parts[j];
            let done = part.1.detach(host, top_level);
            if let Err(failure) = done {
                proof {
                    assert forall|i: int| 0 <= i < n implies (#[trigger] self.view().parts[i]) == (
                        before.parts[i].0,
                        before.part_detached(cleared, top_level, i),
                    ) by {
                        if i > j {
                            before.lemma_parts_detached_stops(
                                cleared,
                                top_level,
                                (j + 1) as nat,
                                i as nat,
                            );
                        }
                    }
                    before.lemma_parts_detached_stops(cleared, top_level, (j + 1) as nat, n as nat);
                    assert(self.view().parts =~= before.detached(start, top_level).0.parts);
                }
                return Err(failure);
            }
            j += 1;
        }
        self.mounted = false;
        assert(self.view().parts =~= before.detached(start, top_level).0.parts);
        Ok(())
    }
}


impl<C: Component> Fragment<C> {
    /// For each part, whether it is registered under one of the changed dependency ids.
    pub(crate) fn selection(&self, changed: &[usize]) -> (marks: Vec<bool>)
        ensures
            marks@.len() == self.parts@.len(),
            forall|i: int|
                0 <= i < marks@.len() ==> #[trigger] marks@[i] == selects(
                    self.dependencies@,
                    changed@,
                    i as usize,
                ),
    {
        let n = self.parts.len();
        let mut marks: Vec<bool> = Vec::new();
        while marks.len() < n
            invariant
                marks@.len() <= n,
                forall|i: int| 0 <= i < marks@.len() ==> !#[trigger] marks@[i],
            decreases n - marks@.len(),
        {
            marks.push(false);
        }
        let ghost index = self.dependencies@;
        let mut k: usize = 0;
        while k < changed.len()
            invariant
                k <= changed@.len(),
                n == self.parts@.len(),
                marks@.len() == n,
                index == self.dependencies@,
                forall|i: int|
                    0 <= i < n ==> (#[trigger] marks@[i] <==> exists|c: int|
                        0 <= c < k && list_of(index, #[trigger] changed@[c]).contains(i as usize)),
            decreases changed@.len() - k,
        {
            let id = changed[k];
            if let Some(list) = self.dependencies.get(&id) {
                let ghost seen = marks@;
                let mut a: usize = 0;
                while a < list.len()
                    invariant
                        a <= list@.len(),
                        list@ == list_of(index, id),
                        marks@.len() == n,
                        forall|i: int|
                            0 <= i < n ==> (#[trigger] marks@[i] <==> seen[i] || exists|b: int|
                                0 <= b < a && #[trigger] list@[b] == i),
                    decreases list@.len() - a,
                {
                    let part = list[a];
                    if part < n {
                        marks[part] = true;
                    }
                    a += 1;
                }
                assert forall|i: int| 0 <= i < n implies (#[trigger] marks@[i] <==> exists|c: int|
                    0 <= c < k + 1 && list_of(index, #[trigger] changed@[c]).contains(
                        i as usize,
                    )) by {
                    if marks@[i] {
                        if !seen[i] {
                            assert(list_of(index, changed@[k as int]).contains(i as usize));
                        }
                    }
                    if exists|c: int|
                        0 <= c < k + 1 && list_of(index, #[trigger] changed@[c]).contains(
                            i as usize,
                        ) {
                        let c = choose|c: int|
                            0 <= c < k + 1 && list_of(index, #[trigger] changed@[c]).contains(
                                i as usize,
                            );
                        if c == k {
                            let b = choose|b: int| 0 <= b < list@.len() && list@[b] == i as usize;
                            assert(list@[b] == i);
                        }
                    }
                }
            } else {
                assert(list_of(index, id) =~= Seq::empty());
            }
            k += 1;
        }
        marks
    }

    /// The parts that an update for the changed dependency ids reaches: the indices of the
    /// parts registered under one of them, each once, in increasing order.
    pub fn affected(&self, changed: &[usize]) -> (parts: Vec<usize>)
        ensures
            forall|a: int, b: int| 0 <= a < b < parts@.len() ==> parts@[a] < parts@[b],
            forall|i: usize|
                parts@.contains(i) <==> i < self.view().parts.len() && selects(
                    self.view().dependencies,
                    changed@,
                    i,
                ),
    {
        let marks = self.selection(changed);
        let mut parts: Vec<usize> = Vec::new();
        let mut i: usize = 0;
        while i < marks.len()
            invariant
                i <= marks@.len(),
                forall|a: int| 0 <= a < parts@.len() ==> #[trigger] parts@[a] < i,
                forall|a: int, b: int| 0 <= a < b < parts@.len() ==> parts@[a] < parts@[b],
                forall|p: usize| parts@.contains(p) <==> p < i && marks@[p as int],
            decreases marks@.len() - i,
        {
            if marks[i] {
                let ghost before = parts@;
                parts.push(i);
                assert forall|p: usize| parts@.contains(p) <==> p < i + 1 && marks@[p as int] by {
                    if parts@.contains(p) {
                        let a = choose|a: int| 0 <= a < parts@.len() && parts@[a] == p;
                        if a < before.len() {
                            assert(before[a] == p);
                            assert(before.contains(p));
                        }
                    }
                    if p < i + 1 && marks@[p as int] {
                        if p == i {
                            assert(parts@[before.len() as int] == p);
                        } else {
                            assert(before.contains(p));
                            let a = choose|a: int| 0 <= a < before.len() && before[a] == p;
                            assert(parts@[a] == p);
                        }
                    }
                }
            }
            i += 1;
        }
        parts
    }

    /// Where a static node or a part goes.
    fn target(&self, location: Option<usize>, at: &Location) -> (r: Result<Location, Failure>)
        ensures
            r == self.view().target(location, *at),
    {
        match location {
            None => Ok(*at),
            Some(index) => if index < self.static_nodes.len() {
                Ok(Location::parent(self.static_nodes[index].1))
            } else {
                Err(Failure::BadParentIndex)
            },
        }
    }

    /// Mounts the fragment with `levels` levels of nested fragments to go.
    pub(crate) fn mount_within(&mut self, host: &mut Host, location: &Location, levels: usize)
        -> (r: Result<(), Failure>)
        requires
            old(host)@.wf(),
        ensures
            final(host)@.wf(),
            final(self).view() == old(self).view().mounted_at(
                levels as nat,
                old(host)@,
                *location,
            ).0,
            final(host)@ == old(self).view().mounted_at(levels as nat, old(host)@, *location).1,
            r == outcome(old(self).view().mounted_at(levels as nat, old(host)@, *location).2),
        decreases levels, 2nat, 0nat,
    {
        if self.mounted {
            return Err(Failure::AlreadyMounted);
        }
        let ghost before = self.view();
        let ghost start = host@;
        let count = self.static_nodes.len();
        let mut k: usize = 0;
        while k < count
            invariant
                k <= count,
                count == self.static_nodes@.len(),
                *self == *old(self),
                before == self.view(),
                !before.mounted,
                start == old(host)@,
                host@.wf(),
                before.statics_mounted(start, *location, k as nat) == (host@, None::<Failure>),
            decreases count - k,
        {
            let placed = match self.target(self.static_nodes[k].0, location) {
                Err(failure) => Err(failure),
                Ok(target) => match target.mount(host, self.static_nodes[k].1) {
                    Ok(_) => Ok(()),
                    Err(failure) => Err(failure),
                },
            };
            if let Err(failure) = placed {
                proof {
                    before.lemma_statics_mounted_stops(
                        start,
                        *location,
                        (k + 1) as nat,
                        count as nat,
                    );
                }
                return Err(failure);
            }
            k += 1;
        }
        let ghost placed = host@;
        let n = self.parts.len();
        let mut j: usize = 0;
        while j < n
            invariant
                j <= n,
                n == self.parts@.len(),
                n == old(self).parts@.len(),
                before == old(self).view(),
                !before.mounted,
                start == old(host)@,
                before.statics_mounted(start, *location, before.statics.len()) == (
                    placed,
                    None::<Failure>,
                ),
                self.static_nodes == old(self).static_nodes,
                self.dependencies == old(self).dependencies,
                self.known == old(self).known,
                self.mounted == old(self).mounted,
                self.levels == old(self).levels,
                host@.wf(),
                before.parts_mounted(levels as nat, placed, *location, j as nat) == (
                    host@,
                    None::<Failure>,
                ),
                forall|i: int|
                    0 <= i < j ==> (#[trigger] self.parts@[i]).0 == old(self).parts@[i].0
                        && self.parts@[i].1.view() == before.part_mounted(
                        levels as nat,
                        placed,
                        *location,
                        i,
                    ),
                forall|i: int| j <= i < n ==> self.parts@[i] == old(self).parts@[i],
            decreases n - j,
        {
            let target = self.target(self.parts[j].0, location);
            let done = match target {
                Err(failure) => Err(failure),
                Ok(target) => {
                    let part = &mut self.parts[j];
                    part.1.mount(host, &target, levels)
                },
            };
            if let Err(failure) = done {
                proof {
                    assert forall|i: int| 0 <= i < n implies (#[trigger] self.view().parts[i]) == (
                        before.parts[i].0,
                        before.part_mounted(levels as nat, placed, *location, i),
                    ) by {
                        if i > j {
                            before.lemma_parts_mounted_stops(
                                levels as nat,
                                placed,
                                *location,
                                (j + 1) as nat,
                                i as nat,
                            );
                        }
                    }
                    before.lemma_parts_mounted_stops(
                        levels as nat,
                        placed,
                        *location,
                        (j + 1) as nat,
                        n as nat,
                    );
                    assert(self.view().parts =~= before.mounted_at(
                        levels as nat,
                        start,
                        *location,
                    ).0.parts);
                }
                return Err(failure);
            }
            j += 1;
        }
        self.mounted = true;
        assert(self.view().parts =~= before.mounted_at(levels as nat, start, *location).0.parts);
        Ok(())
    }

    /// Updates the fragment with `levels` levels of nested fragments to go.
    pub(crate) fn update_within(
        &mut self,
        host: &mut Host,
        registry: &mut EventRegistry,
        context: &C,
        changed: &[usize],
        levels: usize,
    ) -> (r: Result<(), Failure>)
        requires
            old(host)@.wf(),
        ensures
            final(host)@.wf(),
            ({
                let step = old(self).view().updated(
                    levels as nat,
                    World { host: old(host)@, registry: old(registry)@ },
                    *context,
                    changed@,
                );
                &&& final(self).view() == step.state
                &&& final(host)@ == step.world.host
                &&& final(registry)@ == step.world.registry
                &&& r == outcome(step.failure)
            }),
        decreases levels, 2nat, 0nat,
    {
        if !self.mounted {
            return Ok(());
        }
        let ghost before = self.view();
        let ghost world = World { host: host@, registry: registry@ };
        let marks = self.selection(changed);
        let n = self.parts.len();
        let mut j: usize = 0;
        while j < n
            invariant
                j <= n,
                n == self.parts@.len(),
                n == old(self).parts@.len(),
                marks@.len() == n,
                forall|i: int|
                    0 <= i < n ==> #[trigger] marks@[i] == selects(
                        before.dependencies,
                        changed@,
                        i as usize,
                    ),
                before == old(self).view(),
                before.mounted,
                world == (World { host: old(host)@, registry: old(registry)@ }),
                self.static_nodes == old(self).static_nodes,
                self.dependencies == old(self).dependencies,
                self.known == old(self).known,
                self.mounted == old(self).mounted,
                self.levels == old(self).levels,
                host@.wf(),
                before.parts_updated(levels as nat, world, *context, changed@, j as nat) == (
                    World { host: host@, registry: registry@ },
                    None::<Failure>,
                ),
                forall|i: int|
                    0 <= i < j ==> (#[trigger] self.parts@[i]).0 == old(self).parts@[i].0
                        && self.parts@[i].1.view() == before.part_updated(
                        levels as nat,
                        world,
                        *context,
                        changed@,
                        i,
                    ),
                forall|i: int| j <= i < n ==> self.parts@[i] == old(self).parts@[i],
            decreases n - j,
        {
            if marks[j] {
                let part = &mut self.parts[j];
                let done = part.1.update(host, registry, context, changed, levels);
                if let Err(failure) = done {
                    proof {
                        assert forall|i: int| 0 <= i < n implies (#[trigger] self.view().parts[i])
                            == (
                            before.parts[i].0,
                            before.part_updated(levels as nat, world, *context, changed@, i),
                        ) by {
                            if i > j {
                                before.lemma_parts_updated_stops(
                                    levels as nat,
                                    world,
                                    *context,
                                    changed@,
                                    (j + 1) as nat,
                                    i as nat,
                                );
                            }
                        }
                        before.lemma_parts_updated_stops(
                            levels as nat,
                            world,
                            *context,
                            changed@,
                            (j + 1) as nat,
                            n as nat,
                        );
                        assert(self.view().parts =~= before.updated(
                            levels as nat,
                            world,
                            *context,
                            changed@,
                        ).state.parts);
                    }
                    return Err(failure);
                }
            }
            j += 1;
        }
        assert(self.view().parts =~= before.updated(
            levels as nat,
            world,
            *context,
            changed@,
        ).state.parts);
        Ok(())
    }

    /// Updates the fragment for every dependency id it knows, with `levels` levels of nested
    /// fragments to go.
    pub(crate) fn full_update_within(
        &mut self,
        host: &mut Host,
        registry: &mut EventRegistry,
        context: &C,
        levels: usize,
    ) -> (r: Result<(), Failure>)
        requires
            old(host)@.wf(),
        ensures
            final(host)@.wf(),
            ({
                let step = old(self).view().fully_updated(
                    levels as nat,
                    World { host: old(host)@, registry: old(registry)@ },
                    *context,
                );
                &&& final(self).view() == step.state
                &&& final(host)@ == step.world.host
                &&& final(registry)@ == step.world.registry
                &&& r == outcome(step.failure)
            }),
        decreases levels, 3nat, 0nat,
    {
        let known = slice_to_vec(self.known.as_slice());
        self.update_within(host, registry, context, known.as_slice(), levels)
    }
}


impl<C> Fragment<C> {
    /// Starts the description of a fragment.
    pub fn build() -> (builder: FragmentBuilder<C>)
        ensures
            builder@ == crate::fragment::builder::BuilderView::<C>::empty(),
    {
        FragmentBuilder::new()
    }

    /// Whether the fragment is mounted now.
    pub fn is_mounted(&self) -> (mounted: bool)
        ensures
            mounted == self.view().mounted,
    {
        self.mounted
    }

    /// The host node made for static node number `index`.
    pub fn static_node(&self, index: usize) -> (node: Option<NodeId>)
        ensures
            node == (if index < self.view().statics.len() {
                Some(self.view().statics[index as int].1)
            } else {
                None
            }),
    {
        if index < self.static_nodes.len() {
            Some(self.static_nodes[index].1)
        } else {
            None
        }
    }

    /// The number of dynamic parts.
    pub fn part_count(&self) -> (n: usize)
        ensures
            n == self.view().parts.len(),
    {
        self.parts.len()
    }

    /// The dependency ids under which parts are registered, in the order in which they were
    /// first registered.
    pub fn known_dependencies(&self) -> (ids: Vec<usize>)
        ensures
            ids@ == self.view().known,
    {
        slice_to_vec(self.known.as_slice())
    }

}

impl<C: Component> Fragment<C> {
    /// Mounts the fragment at `location`: every static node and every part goes to the
    /// location, or into the static node that its index names. The fragment is mounted
    /// afterwards, but nothing is updated: the texts are empty and no conditional shows until
    /// [`Fragment::full_update`] is called. Fails with [`Failure::AlreadyMounted`], and
    /// changes nothing, if the fragment is mounted.
    pub fn mount(&mut self, host: &mut Host, location: &Location) -> (r: Result<(), Failure>)
        requires
            old(host)@.wf(),
        ensures
            final(host)@.wf(),
            ({
                let view = old(self).view();
                let done = view.mounted_at(view.levels as nat, old(host)@, *location);
                &&& final(self).view() == done.0
                &&& final(host)@ == done.1
                &&& r == outcome(done.2)
            }),
    {
        let levels = self.levels;
        self.mount_within(host, location, levels)
    }

    /// Updates the parts that depend on one of the changed dependency ids: exactly those
    /// registered under one of them, each once, in the order of registration. The other parts
    /// are not touched. A fragment that is not mounted is left as it is.
    pub fn update(
        &mut self,
        host: &mut Host,
        registry: &mut EventRegistry,
        context: &C,
        changed: &[usize],
    ) -> (r: Result<(), Failure>)
        requires
            old(host)@.wf(),
        ensures
            final(host)@.wf(),
            ({
                let view = old(self).view();
                let step = view.updated(
                    view.levels as nat,
                    World { host: old(host)@, registry: old(registry)@ },
                    *context,
                    changed@,
                );
                &&& final(self).view() == step.state
                &&& final(host)@ == step.world.host
                &&& final(registry)@ == step.world.registry
                &&& r == outcome(step.failure)
            }),
    {
        let levels = self.levels;
        self.update_within(host, registry, context, changed, levels)
    }

    /// Updates every part that is registered under any dependency id, to bring the fragment
    /// in line with the state after it was mounted.
    pub fn full_update(&mut self, host: &mut Host, registry: &mut EventRegistry, context: &C)
        -> (r: Result<(), Failure>)
        requires
            old(host)@.wf(),
        ensures
            final(host)@.wf(),
            ({
                let view = old(self).view();
                let step = view.fully_updated(
                    view.levels as nat,
                    World { host: old(host)@, registry: old(registry)@ },
                    *context,
                );
                &&& final(self).view() == step.state
                &&& final(host)@ == step.world.host
                &&& final(registry)@ == step.world.registry
                &&& r == outcome(step.failure)
            }),
    {
        let levels = self.levels;
        self.full_update_within(host, registry, context, levels)
    }
}

} // verus!
