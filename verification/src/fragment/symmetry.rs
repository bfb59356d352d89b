//! Mounting a fresh fragment and detaching it again leaves the place as it was.

use vstd::prelude::*;
use crate::component::Component;
use crate::fragment::location::Location;
use crate::fragment::model::{fragments_detached, place, unhook, FragmentView, PartView};
use crate::host::model::{lemma_without_insert, lemma_without_none, lemma_without_remove, without};
use crate::host::model::{Failure, HostView, NodeId};

verus! {

impl<C: Component> PartView<C> {
    /// The node with which the part itself stands in the tree: the text node of a text
    /// binding, the anchor of a conditional or of a repeated block. A child component has
    /// none of its own.
    pub open spec fn own_node(self) -> NodeId {
        match self {
            PartView::Updatable { text_node, .. } => text_node,
            PartView::Conditional { anchor, .. } => anchor,
            PartView::Each { anchor, .. } => anchor,
            PartView::Component { .. } => 0,
        }
    }

    /// The part has nothing mounted below it: it is a text binding, a conditional whose
    /// fragment is hidden, or a repeated block without fragments.
    pub open spec fn quiet(self) -> bool {
        match self {
            PartView::Updatable { .. } => true,
            PartView::Conditional { fragment_mounted, .. } => !fragment_mounted,
            PartView::Each { mounted_fragments, .. } => mounted_fragments.len() == 0,
            PartView::Component { .. } => false,
        }
    }
}

impl<C: Component> FragmentView<C> {
    /// The nodes that the fragment itself puts into the tree: its static nodes, then the node
    /// of each part.
    pub open spec fn own_nodes(self) -> Seq<NodeId> {
        Seq::new(
            self.statics.len() + self.parts.len(),
            |i: int|
                if i < self.statics.len() {
                    self.statics[i].1
                } else {
                    self.parts[i - self.statics.len()].1.own_node()
                },
        )
    }

    /// The parent below which a node with the given index is mounted.
    pub open spec fn home(self, index: Option<usize>, at: Location) -> NodeId {
        match index {
            Some(parent) => self.statics[parent as int].1,
            None => at.parent,
        }
    }

    /// The fragment is as it was built, and its nodes are as they were created: it is not
    /// mounted, none of its parts has anything mounted, it has no child component, its nodes
    /// differ from each other, none has a parent or children, every static node goes into an
    /// element listed before it and every part into an element.
    pub open spec fn pristine(self, host: HostView) -> bool {
        &&& !self.mounted
        &&& forall|j: int| 0 <= j < self.parts.len() ==> (#[trigger] self.parts[j]).1.quiet()
        &&& self.own_nodes().no_duplicates()
        &&& forall|i: int|
            0 <= i < self.own_nodes().len() ==> {
                let node = #[trigger] self.own_nodes()[i];
                &&& host.has(node)
                &&& host.parent_of(node) is None
                &&& host.children_of(node).len() == 0
            }
        &&& forall|k: int|
            0 <= k < self.statics.len() ==> match (#[trigger] self.statics[k]).0 {
                Some(parent) => parent < k && host.nodes[self.statics[parent as int].1 as int].element,
                None => true,
            }
        &&& forall|j: int|
            0 <= j < self.parts.len() ==> match (#[trigger] self.parts[j]).0 {
                Some(parent) => parent < self.statics.len()
                    && host.nodes[self.statics[parent as int].1 as int].element,
                None => true,
            }
    }

    /// The location can take the fragment: its parent is an element of the host that is not
    /// a node of the fragment, and its anchor, if it has one, is a child of that parent and
    /// not a node of the fragment either.
    pub open spec fn fits(self, host: HostView, at: Location) -> bool {
        &&& host.has(at.parent)
        &&& host.nodes[at.parent as int].element
        &&& !self.own_nodes().contains(at.parent)
        &&& match at.anchor {
            Some(anchor) => host.parent_of(anchor) == Some(at.parent) && !self.own_nodes().contains(
                anchor,
            ),
            None => true,
        }
    }

    /// What holds while the fragment is being mounted, after the first `ks` static nodes and
    /// the first `js` parts are in the tree.
    pub open spec fn placed(self, start: HostView, now: HostView, at: Location, ks: int, js: int)
        -> bool {
        &&& now.wf()
        &&& now.nodes.len() == start.nodes.len()
        &&& forall|n: NodeId|
            start.has(n) ==> (#[trigger] now.nodes[n as int]).element
                == start.nodes[n as int].element
        &&& forall|n: NodeId|
            !self.own_nodes().contains(n) ==> #[trigger] now.parent_of(n) == start.parent_of(n)
        &&& forall|k: int|
            0 <= k < self.statics.len() ==> now.parent_of((#[trigger] self.statics[k]).1) == (if k
                < ks {
                Some(self.home(self.statics[k].0, at))
            } else {
                None
            })
        &&& forall|k: int|
            ks <= k < self.statics.len() ==> now.children_of((#[trigger] self.statics[k]).1).len()
                == 0
        &&& forall|j: int|
            0 <= j < self.parts.len() ==> now.parent_of((#[trigger] self.parts[j]).1.own_node())
                == (if j < js {
                Some(self.home(self.parts[j].0, at))
            } else {
                None
            })
        &&& forall|j: int|
            js <= j < self.parts.len() ==> now.children_of(
                (#[trigger] self.parts[j]).1.own_node(),
            ).len() == 0
        &&& without(now.children_of(at.parent), self.own_nodes()) == start.children_of(at.parent)
    }

    /// What holds while the fragment is being detached at the top level, after the first `ks`
    /// static nodes and the first `js` parts were dealt with.
    pub open spec fn lifted(self, start: HostView, now: HostView, at: Location, ks: int, js: int)
        -> bool {
        &&& now.wf()
        &&& now.nodes.len() == start.nodes.len()
        &&& forall|n: NodeId|
            !self.own_nodes().contains(n) ==> #[trigger] now.parent_of(n) == start.parent_of(n)
        &&& forall|k: int|
            0 <= k < self.statics.len() ==> now.parent_of((#[trigger] self.statics[k]).1) == (if k
                < ks && self.statics[k].0 is None {
                None
            } else {
                Some(self.home(self.statics[k].0, at))
            })
        &&& forall|j: int|
            0 <= j < self.parts.len() ==> now.parent_of((#[trigger] self.parts[j]).1.own_node())
                == (if j < js {
                None
            } else {
                Some(self.home(self.parts[j].0, at))
            })
        &&& without(now.children_of(at.parent), self.own_nodes()) == start.children_of(at.parent)
    }

    /// The nodes of the fragment, told apart.
    proof fn lemma_own_nodes(self)
        requires
            self.own_nodes().no_duplicates(),
        ensures
            forall|k: int|
                0 <= k < self.statics.len() ==> self.own_nodes().contains(
                    (#[trigger] self.statics[k]).1,
                ),
            forall|j: int|
                0 <= j < self.parts.len() ==> self.own_nodes().contains(
                    (#[trigger] self.parts[j]).1.own_node(),
                ),
            forall|a: int, b: int|
                0 <= a < self.statics.len() && 0 <= b < self.statics.len() && a != b ==> (
                #[trigger] self.statics[a]).1 != (#[trigger] self.statics[b]).1,
            forall|a: int, b: int|
                0 <= a < self.parts.len() && 0 <= b < self.parts.len() && a != b ==> (
                #[trigger] self.parts[a]).1.own_node() != (#[trigger] self.parts[b]).1.own_node(),
            forall|a: int, b: int|
                0 <= a < self.statics.len() && 0 <= b < self.parts.len() ==> (
                #[trigger] self.statics[a]).1 != (#[trigger] self.parts[b]).1.own_node(),
    {
        let own = self.own_nodes();
        let count = self.statics.len() as int;
        assert forall|k: int| 0 <= k < self.statics.len() implies own.contains(
            (#[trigger] self.statics[k]).1,
        ) by {
            assert(own[k] == self.statics[k].1);
        }
        assert forall|j: int| 0 <= j < self.parts.len() implies own.contains(
            (#[trigger] self.parts[j]).1.own_node(),
        ) by {
            assert(own[count + j] == self.parts[j].1.own_node());
        }
        assert forall|a: int, b: int|
            0 <= a < self.statics.len() && 0 <= b < self.statics.len() && a != b implies (
        #[trigger] self.statics[a]).1 != (#[trigger] self.statics[b]).1 by {
            assert(own[a] == self.statics[a].1);
            assert(own[b] == self.statics[b].1);
        }
        assert forall|a: int, b: int|
            0 <= a < self.parts.len() && 0 <= b < self.parts.len() && a != b implies (
        #[trigger] self.parts[a]).1.own_node() != (#[trigger] self.parts[b]).1.own_node() by {
            assert(own[count + a] == self.parts[a].1.own_node());
            assert(own[count + b] == self.parts[b].1.own_node());
        }
        assert forall|a: int, b: int|
            0 <= a < self.statics.len() && 0 <= b < self.parts.len() implies (
        #[trigger] self.statics[a]).1 != (#[trigger] self.parts[b]).1.own_node() by {
            assert(own[a] == self.statics[a].1);
            assert(own[count + b] == self.parts[b].1.own_node());
        }
    }

    /// One own node goes into the tree.
    proof fn lemma_place_one(
        self,
        start: HostView,
        now: HostView,
        at: Location,
        ks: int,
        js: int,
        index: Option<usize>,
        node: NodeId,
    )
        requires
            self.pristine(start),
            self.fits(start, at),
            self.placed(start, now, at, ks, js),
            0 <= ks <= self.statics.len(),
            0 <= js <= self.parts.len(),
            js > 0 ==> ks == self.statics.len(),
            (ks < self.statics.len() && js == 0 && self.statics[ks] == (index, node)) || (ks
                == self.statics.len() && js < self.parts.len() && self.parts[js].0 == index
                && self.parts[js].1.own_node() == node),
        ensures
            self.target(index, at) is Ok,
            place(now, self.target(index, at), node).1 is None,
            ks < self.statics.len() ==> self.placed(
                start,
                place(now, self.target(index, at), node).0,
                at,
                ks + 1,
                js,
            ),
            ks == self.statics.len() ==> self.placed(
                start,
                place(now, self.target(index, at), node).0,
                at,
                ks,
                js + 1,
            ),
    {
        self.lemma_own_nodes();
        let own = self.own_nodes();
        let is_static = ks < self.statics.len();
        if is_static {
            assert(self.statics[ks].0 == index);
        } else {
            assert(self.parts[js].0 == index);
        }
        let target = self.target(index, at)->Ok_0;
        let parent = target.parent;
        assert(parent == self.home(index, at));
        match index {
            Some(p) => {
                assert(own.contains(self.statics[p as int].1));
                assert(start.has(self.statics[p as int].1)) by {
                    assert(own[p as int] == self.statics[p as int].1);
                }
            },
            None => {
                match at.anchor {
                    Some(a) => {
                        assert(now.parent_of(a) == start.parent_of(a));
                    },
                    None => {},
                }
            },
        }
        assert(start.has(node) && own.contains(node)) by {
            if is_static {
                assert(own[ks] == node);
            } else {
                assert(own[self.statics.len() + js] == node);
            }
        }
        now.lemma_insert_loose(parent, node, target.anchor);
        let after = now.inserted(parent, node, target.anchor);
        assert(place(now, self.target(index, at), node) == (after, None::<Failure>));
        let grown = choose|pos: int|
            0 <= pos <= now.children_of(parent).len() && after.children_of(parent)
                == #[trigger] now.children_of(parent).insert(pos, node);
        if parent == at.parent {
            lemma_without_insert(now.children_of(parent), own, grown, node);
        }
        assert(without(after.children_of(at.parent), own) == start.children_of(at.parent));
        assert forall|n: NodeId| !own.contains(n) implies #[trigger] after.parent_of(n)
            == start.parent_of(n) by {
            assert(now.parent_of(n) == start.parent_of(n));
        }
    }

    /// All static nodes go into the tree.
    proof fn lemma_statics_placed(self, start: HostView, at: Location, k: nat)
        requires
            start.wf(),
            self.pristine(start),
            self.fits(start, at),
            k <= self.statics.len(),
        ensures
            self.statics_mounted(start, at, k).1 is None,
            self.placed(start, self.statics_mounted(start, at, k).0, at, k as int, 0),
        decreases k,
    {
        self.lemma_own_nodes();
        if k == 0 {
            let own = self.own_nodes();
            let kids = start.children_of(at.parent);
            assert forall|i: int| 0 <= i < kids.len() implies !own.contains(#[trigger] kids[i]) by {
                assert(start.node_wf(at.parent));
                assert(start.parent_of(kids[i]) == Some(at.parent));
                if own.contains(kids[i]) {
                    let o = choose|o: int| 0 <= o < own.len() && own[o] == kids[i];
                    assert(start.parent_of(own[o]) is None);
                }
            }
            lemma_without_none(kids, own);
            assert forall|j: int| 0 <= j < self.parts.len() implies start.parent_of(
                (#[trigger] self.parts[j]).1.own_node(),
            ) is None && start.children_of(self.parts[j].1.own_node()).len() == 0 by {
                assert(own[self.statics.len() + j] == self.parts[j].1.own_node());
            }
            assert forall|s: int| 0 <= s < self.statics.len() implies start.parent_of(
                (#[trigger] self.statics[s]).1,
            ) is None && start.children_of(self.statics[s].1).len() == 0 by {
                assert(own[s] == self.statics[s].1);
            }
        } else {
            self.lemma_statics_placed(start, at, (k - 1) as nat);
            let now = self.statics_mounted(start, at, (k - 1) as nat).0;
            self.lemma_place_one(
                start,
                now,
                at,
                k - 1,
                0,
                self.statics[k - 1].0,
                self.statics[k - 1].1,
            );
        }
    }

    /// All parts go into the tree, and stay as they are.
    proof fn lemma_parts_placed(self, levels: nat, start: HostView, placed: HostView, at: Location, j: nat)
        requires
            self.pristine(start),
            self.fits(start, at),
            self.placed(start, placed, at, self.statics.len() as int, 0),
            j <= self.parts.len(),
        ensures
            self.parts_mounted(levels, placed, at, j).1 is None,
            self.placed(
                start,
                self.parts_mounted(levels, placed, at, j).0,
                at,
                self.statics.len() as int,
                j as int,
            ),
            forall|i: int|
                0 <= i < j ==> #[trigger] self.part_mounted(levels, placed, at, i) == self.parts[i].1,
        decreases j,
    {
        if j > 0 {
            self.lemma_parts_placed(levels, start, placed, at, (j - 1) as nat);
            let now = self.parts_mounted(levels, placed, at, (j - 1) as nat).0;
            let part = self.parts[j - 1];
            assert(part.1.quiet());
            self.lemma_place_one(
                start,
                now,
                at,
                self.statics.len() as int,
                j - 1,
                part.0,
                part.1.own_node(),
            );
            let target = self.target(part.0, at)->Ok_0;
            assert(part.1.mounted_at(levels, now, target) == (
                part.1,
                place(now, Ok(target), part.1.own_node()).0,
                place(now, Ok(target), part.1.own_node()).1,
            ));
            assert forall|i: int| 0 <= i < j implies #[trigger] self.part_mounted(
                levels,
                placed,
                at,
                i,
            ) == self.parts[i].1 by {
                if i == j - 1 {
                } else {
                    assert(i < j - 1);
                }
            }
        }
    }

    /// One own node leaves the tree.
    proof fn lemma_lift_one(
        self,
        start: HostView,
        now: HostView,
        at: Location,
        ks: int,
        js: int,
        node: NodeId,
    )
        requires
            self.own_nodes().no_duplicates(),
            !self.own_nodes().contains(at.parent),
            forall|i: int|
                0 <= i < self.own_nodes().len() ==> start.has(#[trigger] self.own_nodes()[i]),
            self.lifted(start, now, at, ks, js),
            0 <= ks <= self.statics.len(),
            0 <= js <= self.parts.len(),
            js > 0 ==> ks == self.statics.len(),
            (ks < self.statics.len() && js == 0 && self.statics[ks] == (None::<usize>, node)) || (
            ks == self.statics.len() && js < self.parts.len() && self.parts[js].1.own_node()
                == node),
        ensures
            unhook(now, node).1 is None,
            ks < self.statics.len() ==> self.lifted(start, unhook(now, node).0, at, ks + 1, js),
            ks == self.statics.len() ==> self.lifted(start, unhook(now, node).0, at, ks, js + 1),
    {
        self.lemma_own_nodes();
        let own = self.own_nodes();
        let is_static = ks < self.statics.len();
        assert(start.has(node) && own.contains(node)) by {
            if is_static {
                assert(own[ks] == node);
            } else {
                assert(own[self.statics.len() + js] == node);
            }
        }
        if is_static {
            assert(now.parent_of(self.statics[ks].1) is Some);
        } else {
            assert(now.parent_of(self.parts[js].1.own_node()) is Some);
        }
        let parent = now.parent_of(node)->0;
        now.lemma_remove_attached(node);
        let after = now.removed(parent, node);
        assert(unhook(now, node) == (after, None::<Failure>));
        let gone = choose|pos: int|
            0 <= pos < now.children_of(parent).len() && now.children_of(parent)[pos] == node
                && after.children_of(parent) == #[trigger] now.children_of(parent).remove(pos);
        if parent == at.parent {
            lemma_without_remove(now.children_of(parent), own, gone);
        }
        assert(without(after.children_of(at.parent), own) == start.children_of(at.parent));
        assert forall|n: NodeId| !own.contains(n) implies #[trigger] after.parent_of(n)
            == start.parent_of(n) by {
            assert(now.parent_of(n) == start.parent_of(n));
        }
    }

    /// All static nodes at the top of the fragment leave the tree.
    proof fn lemma_statics_lifted(self, start: HostView, mounted: HostView, at: Location, k: nat)
        requires
            self.own_nodes().no_duplicates(),
            !self.own_nodes().contains(at.parent),
            forall|i: int|
                0 <= i < self.own_nodes().len() ==> start.has(#[trigger] self.own_nodes()[i]),
            self.lifted(start, mounted, at, 0, 0),
            k <= self.statics.len(),
        ensures
            self.statics_detached(mounted, k).1 is None,
            self.lifted(start, self.statics_detached(mounted, k).0, at, k as int, 0),
        decreases k,
    {
        if k > 0 {
            self.lemma_statics_lifted(start, mounted, at, (k - 1) as nat);
            let now = self.statics_detached(mounted, (k - 1) as nat).0;
            if self.statics[k - 1].0 is None {
                self.lemma_lift_one(start, now, at, k - 1, 0, self.statics[k - 1].1);
            }
        }
    }

    /// All parts leave the tree, and stay as they are.
    proof fn lemma_parts_lifted(self, start: HostView, cleared: HostView, at: Location, j: nat)
        requires
            self.own_nodes().no_duplicates(),
            !self.own_nodes().contains(at.parent),
            forall|i: int|
                0 <= i < self.own_nodes().len() ==> start.has(#[trigger] self.own_nodes()[i]),
            forall|i: int| 0 <= i < self.parts.len() ==> (#[trigger] self.parts[i]).1.quiet(),
            self.lifted(start, cleared, at, self.statics.len() as int, 0),
            j <= self.parts.len(),
        ensures
            self.parts_detached(cleared, true, j).1 is None,
            self.lifted(
                start,
                self.parts_detached(cleared, true, j).0,
                at,
                self.statics.len() as int,
                j as int,
            ),
            forall|i: int|
                0 <= i < j ==> #[trigger] self.part_detached(cleared, true, i) == self.parts[i].1,
        decreases j,
    {
        if j > 0 {
            self.lemma_parts_lifted(start, cleared, at, (j - 1) as nat);
            let now = self.parts_detached(cleared, true, (j - 1) as nat).0;
            let part = self.parts[j - 1].1;
            assert(part.quiet());
            self.lemma_lift_one(start, now, at, self.statics.len() as int, j - 1, part.own_node());
            match part {
                PartView::Each { get_items, mounted_fragments, anchor } => {
                    assert(mounted_fragments =~= Seq::empty());
                    assert(fragments_detached(mounted_fragments, now, true, 0) == (
                        now,
                        None::<Failure>,
                    ));
                },
                _ => {},
            }
            assert(part.detached(now, true) == (
                part,
                unhook(now, part.own_node()).0,
                unhook(now, part.own_node()).1,
            ));
            assert forall|i: int| 0 <= i < j implies #[trigger] self.part_detached(
                cleared,
                true,
                i,
            ) == self.parts[i].1 by {
                if i == j - 1 {
                } else {
                    assert(i < j - 1);
                }
            }
        }
    }

    /// A pristine fragment can be mounted at every location that fits it.
    proof fn lemma_mounts(self, levels: nat, host: HostView, at: Location)
        requires
            host.wf(),
            self.pristine(host),
            self.fits(host, at),
        ensures
            self.mounted_at(levels, host, at).2 is None,
            self.mounted_at(levels, host, at).0 == (FragmentView { mounted: true, ..self }),
            self.placed(
                host,
                self.mounted_at(levels, host, at).1,
                at,
                self.statics.len() as int,
                self.parts.len() as int,
            ),
    {
        let count = self.statics.len();
        self.lemma_statics_placed(host, at, count);
        let with_statics = self.statics_mounted(host, at, count).0;
        self.lemma_parts_placed(levels, host, with_statics, at, self.parts.len());
        let (mounted, placed, failure) = self.mounted_at(levels, host, at);
        assert(mounted.parts =~= self.parts);
    }

    /// Once mounted, the fragment is ready to be detached.
    proof fn lemma_placed_is_liftable(self, start: HostView, now: HostView, at: Location)
        requires
            self.placed(start, now, at, self.statics.len() as int, self.parts.len() as int),
        ensures
            self.lifted(start, now, at, 0, 0),
    {
    }

    /// A mounted fragment with quiet parts can be detached at the top level.
    proof fn lemma_detaches(self, start: HostView, now: HostView, at: Location)
        requires
            self.mounted,
            self.own_nodes().no_duplicates(),
            !self.own_nodes().contains(at.parent),
            forall|i: int|
                0 <= i < self.own_nodes().len() ==> start.has(#[trigger] self.own_nodes()[i]),
            forall|i: int| 0 <= i < self.parts.len() ==> (#[trigger] self.parts[i]).1.quiet(),
            self.lifted(start, now, at, 0, 0),
        ensures
            self.detached(now, true).2 is None,
            self.detached(now, true).0 == (FragmentView { mounted: false, ..self }),
            self.lifted(
                start,
                self.detached(now, true).1,
                at,
                self.statics.len() as int,
                self.parts.len() as int,
            ),
    {
        let count = self.statics.len();
        self.lemma_statics_lifted(start, now, at, count);
        let cleared = self.statics_detached(now, count).0;
        self.lemma_parts_lifted(start, cleared, at, self.parts.len());
        let (detached, after, failed) = self.detached(now, true);
        assert(self.statics_detached(now, count).1 is None);
        assert(detached.parts.len() == self.parts.len());
        assert forall|j: int| 0 <= j < self.parts.len() implies #[trigger] detached.parts[j]
            == self.parts[j] by {
            assert(detached.parts[j] == (self.parts[j].0, self.part_detached(cleared, true, j)));
            assert(self.part_detached(cleared, true, j) == self.parts[j].1);
        }
        assert(detached.parts =~= self.parts);
    }

    /// After the detach, no node of the fragment is left at the location.
    proof fn lemma_lifted_is_clear(self, start: HostView, after: HostView, at: Location)
        requires
            self.own_nodes().no_duplicates(),
            !self.own_nodes().contains(at.parent),
            after.has(at.parent),
            self.lifted(start, after, at, self.statics.len() as int, self.parts.len() as int),
            forall|k: int|
                0 <= k < self.statics.len() ==> match (#[trigger] self.statics[k]).0 {
                    Some(parent) => parent < self.statics.len(),
                    None => true,
                },
        ensures
            after.children_of(at.parent) == start.children_of(at.parent),
    {
        self.lemma_own_nodes();
        let own = self.own_nodes();
        let count = self.statics.len();
        let kids = after.children_of(at.parent);
        assert forall|i: int| 0 <= i < kids.len() implies !own.contains(#[trigger] kids[i]) by {
            assert(after.node_wf(at.parent));
            assert(after.parent_of(kids[i]) == Some(at.parent));
            if own.contains(kids[i]) {
                let o = choose|o: int| 0 <= o < own.len() && own[o] == kids[i];
                if o < count {
                    assert(self.statics[o].1 == kids[i]);
                    match self.statics[o].0 {
                        Some(p) => {
                            assert(own.contains(self.statics[p as int].1));
                        },
                        None => {},
                    }
                } else {
                    assert(self.parts[o - count].1.own_node() == kids[i]);
                }
            }
        }
        lemma_without_none(kids, own);
    }

    /// Mount and detach are symmetric. A pristine fragment can be mounted at every location
    /// that fits it, and can then be detached at the top level; after that the child list at
    /// the location is the one from before the mount, node for node and in the same order,
    /// every node that is not of the fragment has the parent it had, and the fragment is
    /// again as it was.
    pub proof fn lemma_mount_then_detach(self, levels: nat, host: HostView, at: Location)
        requires
            host.wf(),
            self.pristine(host),
            self.fits(host, at),
        ensures
            ({
                let (mounted, placed, failure) = self.mounted_at(levels, host, at);
                let (detached, after, failed) = mounted.detached(placed, true);
                &&& failure is None
                &&& mounted == (FragmentView { mounted: true, ..self })
                &&& failed is None
                &&& detached == self
                &&& after.wf()
                &&& after.children_of(at.parent) == host.children_of(at.parent)
                &&& forall|n: NodeId|
                    !self.own_nodes().contains(n) ==> #[trigger] after.parent_of(n)
                        == host.parent_of(n)
            }),
    {
        self.lemma_mounts(levels, host, at);
        let (mounted, placed, failure) = self.mounted_at(levels, host, at);
        self.lemma_placed_is_liftable(host, placed, at);
        assert(mounted.own_nodes() =~= self.own_nodes());
        assert(mounted.lifted(host, placed, at, 0, 0));
        mounted.lemma_detaches(host, placed, at);
        let (detached, after, failed) = mounted.detached(placed, true);
        mounted.lemma_lifted_is_clear(host, after, at);
    }
}

} // verus!
