//! Building creates nodes and touches nothing else: a built fragment is made of new nodes
//! that are in nobody's way.

use vstd::prelude::*;
use crate::component::Component;
use crate::fragment::builder::{BuilderView, PartKind};
use crate::fragment::event_registry::RegistryView;
use crate::fragment::location::Location;
use crate::fragment::model::{FragmentView, PartView, World};
use crate::fragment::node::NodeSpec;
use crate::host::model::{HostView, NodeId};

verus! {

/// `after` is `before` with new nodes: the old nodes have the parents, children and text
/// they had and are elements or text as before, and the new nodes have neither parent nor
/// children.
pub open spec fn grown(before: HostView, after: HostView) -> bool {
    &&& after.wf()
    &&& before.nodes.len() <= after.nodes.len()
    &&& forall|n: int|
        0 <= n < before.nodes.len() ==> {
            let now = #[trigger] after.nodes[n];
            &&& now.parent == before.nodes[n].parent
            &&& now.children == before.nodes[n].children
            &&& now.element == before.nodes[n].element
            &&& now.data == before.nodes[n].data
        }
    &&& forall|n: int|
        before.nodes.len() <= n < after.nodes.len() ==> {
            let now = #[trigger] after.nodes[n];
            &&& now.parent is None
            &&& now.children.len() == 0
        }
}

pub proof fn lemma_grown_twice(first: HostView, second: HostView, third: HostView)
    requires
        grown(first, second),
        grown(second, third),
    ensures
        grown(first, third),
{
    assert forall|n: int| 0 <= n < first.nodes.len() implies {
        let now = #[trigger] third.nodes[n];
        &&& now.parent == first.nodes[n].parent
        &&& now.children == first.nodes[n].children
        &&& now.element == first.nodes[n].element
    } by {
        let mid = second.nodes[n];
    }
    assert forall|n: int| first.nodes.len() <= n < third.nodes.len() implies {
        let now = #[trigger] third.nodes[n];
        &&& now.parent is None
        &&& now.children.len() == 0
    } by {
        if n < second.nodes.len() {
            let mid = second.nodes[n];
        }
    }
}

impl HostView {
    /// Creating a node adds one node and touches no other.
    pub proof fn lemma_created(self, element: bool, data: Seq<char>)
        requires
            self.wf(),
        ensures
            grown(self, self.created(element, data)),
            self.created(element, data).nodes.len() == self.nodes.len() + 1,
            self.created(element, data).nodes[self.nodes.len() as int].element == element,
    {
        let after = self.created(element, data);
        assert forall|n: NodeId| after.has(n) implies #[trigger] after.node_wf(n) by {
            if self.has(n) {
                assert(self.node_wf(n));
                let kids = after.nodes[n as int].children;
                assert forall|k: int| 0 <= k < kids.len() implies after.has(#[trigger] kids[k])
                    && after.nodes[kids[k] as int].parent == Some(n) by {
                    assert(self.has(kids[k]));
                }
            }
        }
    }
}

impl NodeSpec {
    /// Listeners change neither the number of nodes nor the shape of the tree.
    pub proof fn lemma_listened_keeps(
        self,
        host: HostView,
        node: NodeId,
        registry: RegistryView,
        k: nat,
    )
        requires
            host.wf(),
            host.has(node),
        ensures
            grown(host, self.listened(host, node, registry, k)),
            self.listened(host, node, registry, k).nodes.len() == host.nodes.len(),
        decreases k,
    {
        if k > 0 {
            self.lemma_listened_keeps(host, node, registry, (k - 1) as nat);
            self.lemma_listened(host, node, registry, k);
            let before = self.listened(host, node, registry, (k - 1) as nat);
            let after = self.listened(host, node, registry, k);
            assert forall|n: int| 0 <= n < host.nodes.len() implies {
                let now = #[trigger] after.nodes[n];
                &&& now.parent == host.nodes[n].parent
                &&& now.children == host.nodes[n].children
                &&& now.element == host.nodes[n].element
            } by {
                let mid = before.nodes[n];
            }
        }
    }

    /// Creating a described node adds one node, which is an element or text as described,
    /// and touches no other.
    pub proof fn lemma_created(self, host: HostView, registry: RegistryView)
        requires
            host.wf(),
        ensures
            grown(host, self.created(host, registry)),
            self.created(host, registry).nodes.len() == host.nodes.len() + 1,
            self.created(host, registry).nodes[host.nodes.len() as int].element == self.element,
    {
        host.lemma_created(self.element, self.data);
        let made = host.created(self.element, self.data);
        let node = #[verifier::truncate]
        (host.nodes.len() as usize);
        assert(made.has(node));
        self.lemma_listened_keeps(made, node, registry, self.events.len());
        let after = self.created(host, registry);
        lemma_grown_twice(host, made, after);
        let fresh = after.nodes[host.nodes.len() as int];
    }
}

impl<C: Component> BuilderView<C> {
    /// Every static node that another node or a part goes into is an element.
    pub open spec fn roomy(self) -> bool {
        &&& forall|k: int|
            0 <= k < self.nodes.len() ==> match (#[trigger] self.nodes[k]).1 {
                Some(parent) => parent < self.nodes.len() ==> self.nodes[parent as int].0.element,
                None => true,
            }
        &&& forall|j: int|
            0 <= j < self.parts.len() ==> match (#[trigger] self.parts[j]).location {
                Some(parent) => parent < self.nodes.len() ==> self.nodes[parent as int].0.element,
                None => true,
            }
    }

    /// None of the parts is a child component.
    pub open spec fn childless(self) -> bool {
        forall|j: int| 0 <= j < self.parts.len() ==> !((#[trigger] self.parts[j]).kind is Component)
    }

    /// The static nodes are created one after the other.
    pub proof fn lemma_nodes_built(self, world: World, k: nat)
        requires
            world.host.wf(),
            k <= self.nodes.len(),
        ensures
            grown(world.host, self.nodes_built(world, k).host),
            self.nodes_built(world, k).host.nodes.len() == world.host.nodes.len() + k,
            forall|i: int|
                0 <= i < k ==> (#[trigger] self.nodes_built(world, k).host.nodes[world.host.nodes.len()
                    + i]).element == self.nodes[i].0.element,
        decreases k,
    {
        if k > 0 {
            self.lemma_nodes_built(world, (k - 1) as nat);
            let before = self.nodes_built(world, (k - 1) as nat);
            let after = self.nodes_built(world, k);
            self.nodes[k - 1].0.lemma_created(before.host, before.registry);
            lemma_grown_twice(world.host, before.host, after.host);
            assert forall|i: int| 0 <= i < k implies (#[trigger] after.host.nodes[world.host.nodes.len()
                + i]).element == self.nodes[i].0.element by {
                if i < k - 1 {
                    let n = (world.host.nodes.len() + i) as int;
                    assert(before.host.nodes[n].element == self.nodes[i].0.element);
                    assert(after.host.nodes[n].element == before.host.nodes[n].element);
                }
            }
        } else {
            assert(grown(world.host, world.host));
        }
    }

    /// The parts are built one after the other, and each build only creates nodes.
    pub proof fn lemma_parts_built(self, levels: nat, world: World, j: nat)
        requires
            world.host.wf(),
            j <= self.parts.len(),
        ensures
            grown(world.host, self.parts_built(levels, world, j).0.host),
        decreases levels, self, 0nat, j,
    {
        if j > 0 {
            self.lemma_parts_built(levels, world, (j - 1) as nat);
            let (before, failure) = self.parts_built(levels, world, (j - 1) as nat);
            if failure is None {
                self.parts[j - 1].kind.lemma_built(levels, before);
                lemma_grown_twice(
                    world.host,
                    before.host,
                    self.parts_built(levels, world, j).0.host,
                );
            }
        } else {
            assert(grown(world.host, world.host));
        }
    }

    /// Building only creates nodes.
    pub proof fn lemma_built(self, levels: nat, world: World)
        requires
            world.host.wf(),
        ensures
            grown(world.host, self.built(levels, world).world.host),
        decreases levels, self, 1nat, 0nat,
    {
        if self.well_formed() {
            self.lemma_nodes_built(world, self.nodes.len());
            let with_nodes = self.nodes_built(world, self.nodes.len());
            self.lemma_parts_built(levels, with_nodes, self.parts.len());
            lemma_grown_twice(
                world.host,
                with_nodes.host,
                self.built(levels, world).world.host,
            );
        } else {
            assert(grown(world.host, world.host));
        }
    }
}

impl<C: Component> PartKind<C> {
    /// Building a part only creates nodes.
    pub proof fn lemma_built(self, levels: nat, world: World)
        requires
            world.host.wf(),
        ensures
            grown(world.host, self.built(levels, world).world.host),
        decreases levels, self, 0nat, 0nat,
    {
        match self {
            PartKind::Updatable { .. } => {
                world.host.lemma_created(false, Seq::empty());
            },
            PartKind::Conditional { fragment, .. } => {
                if levels > 0 {
                    fragment.lemma_built((levels - 1) as nat, world);
                    let nested = fragment.built((levels - 1) as nat, world);
                    if nested.failure is None {
                        nested.world.host.lemma_created(false, Seq::empty());
                        lemma_grown_twice(
                            world.host,
                            nested.world.host,
                            self.built(levels, world).world.host,
                        );
                    }
                } else {
                    assert(grown(world.host, world.host));
                }
            },
            PartKind::Each { .. } => {
                world.host.lemma_created(false, Seq::empty());
            },
            PartKind::Component { component, register_event, .. } => {
                if levels > 0 {
                    let own = RegistryView { owner: register_event, closures: Map::empty() };
                    component.rendered().lemma_built(
                        (levels - 1) as nat,
                        World { host: world.host, registry: own },
                    );
                } else {
                    assert(grown(world.host, world.host));
                }
            },
        }
    }
}


impl<C: Component> BuilderView<C> {
    /// The number of nodes that the host has after the first `j` parts were built.
    pub open spec fn seam(self, levels: nat, world: World, j: nat) -> nat {
        self.parts_built(levels, world, j).0.host.nodes.len()
    }

    /// Where all parts were built, each one was.
    pub proof fn lemma_parts_all_built(self, levels: nat, world: World, j: nat, all: nat)
        requires
            j <= all <= self.parts.len(),
            self.parts_built(levels, world, all).1 is None,
        ensures
            self.parts_built(levels, world, j).1 is None,
        decreases all - j,
    {
        if j < all {
            self.lemma_parts_all_built(levels, world, (j + 1) as nat, all);
        }
    }

    /// The node of each part is created between the parts before it and the parts after it.
    pub proof fn lemma_part_node(self, levels: nat, world: World, j: int)
        requires
            world.host.wf(),
            0 <= j < self.parts.len(),
            !(self.parts[j].kind is Component),
            self.parts_built(levels, world, self.parts.len()).1 is None,
            self.seam(levels, world, self.parts.len()) <= usize::MAX,
        ensures
            self.seam(levels, world, j as nat) <= self.part_built(levels, world, j).own_node(),
            self.part_built(levels, world, j).own_node() < self.seam(levels, world, (j + 1) as nat),
            self.seam(levels, world, (j + 1) as nat) <= self.seam(
                levels,
                world,
                self.parts.len(),
            ),
            self.part_built(levels, world, j).quiet(),
    {
        self.lemma_parts_all_built(levels, world, j as nat, self.parts.len());
        self.lemma_parts_all_built(levels, world, (j + 1) as nat, self.parts.len());
        self.lemma_parts_built(levels, world, j as nat);
        let before = self.parts_built(levels, world, j as nat).0;
        let after = self.parts_built(levels, world, (j + 1) as nat).0;
        self.lemma_parts_grow(levels, world, (j + 1) as nat, self.parts.len());
        let kind = self.parts[j].kind;
        kind.lemma_built(levels, before);
        match kind {
            PartKind::Conditional { fragment, .. } => {
                fragment.lemma_built((levels - 1) as nat, before);
            },
            _ => {},
        }
    }

    /// The host never shrinks while the parts are built.
    pub proof fn lemma_parts_grow(self, levels: nat, world: World, j: nat, later: nat)
        requires
            world.host.wf(),
            j <= later <= self.parts.len(),
        ensures
            self.seam(levels, world, j) <= self.seam(levels, world, later),
        decreases later - j,
    {
        if j < later {
            self.lemma_parts_grow(levels, world, j, (later - 1) as nat);
            self.lemma_parts_built(levels, world, (later - 1) as nat);
            let (before, failure) = self.parts_built(levels, world, (later - 1) as nat);
            if failure is None {
                self.parts[later - 1].kind.lemma_built(levels, before);
            }
        }
    }

    /// A fragment is pristine when it has been built, if its builder is well-formed, puts
    /// nodes and parts into elements only, and has no child component among its parts. All
    /// its nodes are new: their handles start at the number of nodes that the host had.
    pub proof fn lemma_built_is_pristine(self, levels: nat, world: World)
        requires
            world.host.wf(),
            self.well_formed(),
            self.roomy(),
            self.childless(),
            self.built(levels, world).failure is None,
            self.built(levels, world).world.host.nodes.len() <= usize::MAX,
        ensures
            self.built(levels, world).state.pristine(self.built(levels, world).world.host),
            forall|i: int|
                0 <= i < self.built(levels, world).state.own_nodes().len()
                    ==> world.host.nodes.len() <= #[trigger] self.built(
                    levels,
                    world,
                ).state.own_nodes()[i] < self.built(levels, world).world.host.nodes.len(),
    {
        let step = self.built(levels, world);
        let fragment = step.state;
        let host = step.world.host;
        let first = world.host.nodes.len();
        let count = self.nodes.len();
        let parts = self.parts.len();
        self.lemma_nodes_built(world, count);
        let with_nodes = self.nodes_built(world, count);
        self.lemma_parts_built(levels, with_nodes, parts);
        self.lemma_built(levels, world);
        self.lemma_parts_grow(levels, with_nodes, 0, parts);
        let own = fragment.own_nodes();
        assert forall|k: int| 0 <= k < count implies (#[trigger] fragment.statics[k]).1 == first
            + k by {
            self.lemma_nodes_built(world, k as nat);
        }
        assert forall|j: int| 0 <= j < parts implies first + count <= (
        #[trigger] fragment.parts[j]).1.own_node() < host.nodes.len() && fragment.parts[j].1.quiet() by {
            self.lemma_part_node(levels, with_nodes, j);
            self.lemma_parts_grow(levels, with_nodes, 0, j as nat);
        }
        assert forall|a: int, b: int| 0 <= a < b < own.len() implies own[a] < own[b] by {
            if b < count {
            } else if a < count {
                assert(own[b] == fragment.parts[b - count].1.own_node());
            } else {
                let ja = a - count;
                let jb = b - count;
                assert(own[a] == fragment.parts[ja].1.own_node());
                assert(own[b] == fragment.parts[jb].1.own_node());
                self.lemma_part_node(levels, with_nodes, ja);
                self.lemma_part_node(levels, with_nodes, jb);
                self.lemma_parts_grow(levels, with_nodes, (ja + 1) as nat, jb as nat);
            }
        }
        assert forall|i: int| 0 <= i < own.len() implies first <= #[trigger] own[i]
            < host.nodes.len() by {
            if i >= count {
                assert(own[i] == fragment.parts[i - count].1.own_node());
            }
        }
        assert forall|i: int| 0 <= i < own.len() implies {
            let node = #[trigger] own[i];
            &&& host.has(node)
            &&& host.parent_of(node) is None
            &&& host.children_of(node).len() == 0
        } by {
            let node = own[i];
            assert(first <= node < host.nodes.len());
            let now = host.nodes[node as int];
        }
        assert forall|k: int| 0 <= k < fragment.statics.len() implies match (
        #[trigger] fragment.statics[k]).0 {
            Some(parent) => parent < k && host.nodes[fragment.statics[parent as int].1 as int].element,
            None => true,
        } by {
            match self.nodes[k].1 {
                Some(parent) => {
                    assert(fragment.statics[parent as int].1 == first + parent);
                    assert(with_nodes.host.nodes[first + parent].element);
                    let now = host.nodes[first + parent];
                },
                None => {},
            }
        }
        assert forall|j: int| 0 <= j < fragment.parts.len() implies match (
        #[trigger] fragment.parts[j]).0 {
            Some(parent) => parent < fragment.statics.len()
                && host.nodes[fragment.statics[parent as int].1 as int].element,
            None => true,
        } by {
            match self.parts[j].location {
                Some(parent) => {
                    assert(fragment.statics[parent as int].1 == first + parent);
                    assert(with_nodes.host.nodes[first + parent].element);
                    let now = host.nodes[first + parent];
                },
                None => {},
            }
        }
    }

    /// Mount and detach are symmetric for every fragment as it comes from its builder: a
    /// fragment that was built, and neither mounted nor updated since, can be mounted below
    /// every element that was there before it was built, in front of every child of that
    /// element, and detached again; the child list of the element is then what it was before
    /// the mount. This holds for builders that are well-formed, put nodes and parts into
    /// elements only and have no child component among their parts.
    pub proof fn lemma_built_mounts_and_detaches(
        self,
        levels: nat,
        world: World,
        depth: nat,
        at: Location,
    )
        requires
            world.host.wf(),
            self.well_formed(),
            self.roomy(),
            self.childless(),
            self.built(levels, world).failure is None,
            self.built(levels, world).world.host.nodes.len() <= usize::MAX,
            world.host.has(at.parent),
            world.host.nodes[at.parent as int].element,
            match at.anchor {
                Some(anchor) => world.host.parent_of(anchor) == Some(at.parent),
                None => true,
            },
        ensures
            ({
                let built = self.built(levels, world);
                let (mounted, placed, failure) = built.state.mounted_at(
                    depth,
                    built.world.host,
                    at,
                );
                let (detached, after, failed) = mounted.detached(placed, true);
                &&& failure is None
                &&& failed is None
                &&& detached == built.state
                &&& after.children_of(at.parent) == built.world.host.children_of(at.parent)
                &&& after.children_of(at.parent) == world.host.children_of(at.parent)
            }),
    {
        let built = self.built(levels, world);
        self.lemma_built(levels, world);
        self.lemma_built_is_pristine(levels, world);
        let host = built.world.host;
        let own = built.state.own_nodes();
        let was = host.nodes[at.parent as int];
        assert(!own.contains(at.parent)) by {
            if own.contains(at.parent) {
                let i = choose|i: int| 0 <= i < own.len() && own[i] == at.parent;
                assert(world.host.nodes.len() <= own[i]);
            }
        }
        match at.anchor {
            Some(anchor) => {
                assert(world.host.has(anchor));
                let now = host.nodes[anchor as int];
                assert(!own.contains(anchor)) by {
                    if own.contains(anchor) {
                        let i = choose|i: int| 0 <= i < own.len() && own[i] == anchor;
                        assert(world.host.nodes.len() <= own[i]);
                    }
                }
            },
            None => {},
        }
        built.state.lemma_mount_then_detach(depth, host, at);
    }
}

} // verus!
