//! The mathematical model of the host tree: what a [`Host`](super::Host) is, seen from
//! contracts, and what each host primitive does to it.

use vstd::prelude::*;

verus! {

/// Handle of a host node: the position of the node in the host's node table.
pub type NodeId = usize;

/// A host callback: the listener that forwards one event id to the controller that owns the
/// registry it was made by.
#[derive(Clone, Copy, Debug, PartialEq, Eq, Hash, Structural)]
pub struct HostCallback {
    /// The token of the owning controller, fixed when its registry was made.
    pub owner: usize,
    /// The event id that the callback reports.
    pub event_id: usize,
}

/// Why an operation was abandoned.
#[derive(Clone, Copy, Debug, PartialEq, Eq, Structural)]
pub enum Failure {
    /// A node handle does not name a node of the host.
    UnknownNode,
    /// Text was written to a node that is not a text node.
    NotText,
    /// A node was to be inserted below a text node.
    NotAnElement,
    /// A node was to be inserted below itself or below one of its descendants.
    Cycle,
    /// The anchor, or the node to remove, is not a child of the given parent.
    NotAChild,
    /// A node that had to be in the tree has no parent.
    Detached,
    /// A fragment that is mounted was to be mounted again.
    AlreadyMounted,
    /// A builder refers to a static node that it has not listed before.
    BadParentIndex,
    /// Repeated fragments were nested more deeply than the fragment allows.
    TooDeep,
}

/// One change made to the host tree, in the order in which it was made. The data that belongs
/// to a change (a tag, a text, a listener) is read from the host itself.
#[derive(Clone, Copy, Debug, PartialEq, Eq)]
pub enum HostOp {
    /// The node was created.
    Created { node: NodeId },
    /// The text of the node was overwritten.
    TextSet { node: NodeId },
    /// The node was inserted below `parent`, before `anchor` or as the last child.
    Inserted { parent: NodeId, node: NodeId, anchor: Option<NodeId> },
    /// The node was removed from `parent`.
    Removed { parent: NodeId, node: NodeId },
    /// The node received its listener number `listener`.
    Listening { node: NodeId, listener: usize },
}

/// One node of the host tree.
pub ghost struct NodeView {
    /// An element if true, a text node if false.
    pub element: bool,
    /// The tag of an element, the content of a text node.
    pub data: Seq<char>,
    pub parent: Option<NodeId>,
    pub children: Seq<NodeId>,
    /// Event name and callback of each listener, in the order of attachment.
    pub listeners: Seq<(Seq<char>, HostCallback)>,
}

/// The host tree and the log of the changes made to it.
pub ghost struct HostView {
    pub nodes: Seq<NodeView>,
    pub ops: Seq<HostOp>,
}

impl NodeView {
    pub open spec fn fresh(element: bool, data: Seq<char>) -> NodeView {
        NodeView { element, data, parent: None, children: Seq::empty(), listeners: Seq::empty() }
    }
}

impl HostView {
    pub open spec fn empty() -> HostView {
        HostView { nodes: Seq::empty(), ops: Seq::empty() }
    }

    pub open spec fn has(self, n: NodeId) -> bool {
        n < self.nodes.len()
    }

    /// The parent of `n`; `None` for a node outside the tree and for an unknown handle.
    pub open spec fn parent_of(self, n: NodeId) -> Option<NodeId> {
        if self.has(n) {
            self.nodes[n as int].parent
        } else {
            None
        }
    }

    /// The tag of the element `n` or the content of the text node `n`; empty for an unknown
    /// handle.
    pub open spec fn data_of(self, n: NodeId) -> Seq<char> {
        if self.has(n) {
            self.nodes[n as int].data
        } else {
            Seq::empty()
        }
    }

    /// The child list of `n`, empty for an unknown handle.
    pub open spec fn children_of(self, n: NodeId) -> Seq<NodeId> {
        if self.has(n) {
            self.nodes[n as int].children
        } else {
            Seq::empty()
        }
    }

    /// Parent and child links agree, no child list names a node twice, and text nodes have no
    /// children.
    pub open spec fn wf(self) -> bool {
        forall|n: NodeId| self.has(n) ==> #[trigger] self.node_wf(n)
    }

    pub open spec fn node_wf(self, n: NodeId) -> bool {
        let node = self.nodes[n as int];
        &&& match node.parent {
            Some(p) => self.has(p) && p != n && self.nodes[p as int].children.contains(n),
            None => true,
        }
        &&& forall|k: int|
            0 <= k < node.children.len() ==> self.has(#[trigger] node.children[k])
                && self.nodes[node.children[k] as int].parent == Some(n)
        &&& node.children.no_duplicates()
        &&& !node.element ==> node.children.len() == 0
    }

    /// Walking up from `from` through at most `steps` parent links meets `target`.
    pub open spec fn reaches(self, from: NodeId, target: NodeId, steps: nat) -> bool
        decreases steps,
    {
        from == target || (steps > 0 && match self.parent_of(from) {
            Some(p) => self.reaches(p, target, (steps - 1) as nat),
            None => false,
        })
    }

    /// The same tree with an empty log.
    pub open spec fn drained(self) -> HostView {
        HostView { ops: Seq::empty(), ..self }
    }

    pub open spec fn logged(self, op: HostOp) -> HostView {
        HostView { ops: self.ops.push(op), ..self }
    }

    pub open spec fn with_node(self, n: NodeId, node: NodeView) -> HostView {
        HostView { nodes: self.nodes.update(n as int, node), ..self }
    }

    // ---- creation ----------------------------------------------------------------------

    /// The host after a node was created; its handle is the old number of nodes.
    pub open spec fn created(self, element: bool, data: Seq<char>) -> HostView {
        HostView {
            nodes: self.nodes.push(NodeView::fresh(element, data)),
            ops: self.ops.push(HostOp::Created { node: self.nodes.len() as usize }),
        }
    }

    // ---- text --------------------------------------------------------------------------

    pub open spec fn text_failure(self, node: NodeId) -> Option<Failure> {
        if !self.has(node) {
            Some(Failure::UnknownNode)
        } else if self.nodes[node as int].element {
            Some(Failure::NotText)
        } else {
            None
        }
    }

    pub open spec fn text_set(self, node: NodeId, content: Seq<char>) -> HostView {
        self.with_node(node, NodeView { data: content, ..self.nodes[node as int] }).logged(
            HostOp::TextSet { node },
        )
    }

    // ---- listeners ---------------------------------------------------------------------

    pub open spec fn listen_failure(self, node: NodeId) -> Option<Failure> {
        if !self.has(node) {
            Some(Failure::UnknownNode)
        } else {
            None
        }
    }

    pub open spec fn listening(self, node: NodeId, name: Seq<char>, callback: HostCallback)
        -> HostView {
        let old_node = self.nodes[node as int];
        self.with_node(
            node,
            NodeView { listeners: old_node.listeners.push((name, callback)), ..old_node },
        ).logged(HostOp::Listening { node, listener: old_node.listeners.len() as usize })
    }

    // ---- removal -----------------------------------------------------------------------

    pub open spec fn remove_failure(self, parent: NodeId, node: NodeId) -> Option<Failure> {
        if !self.has(parent) || !self.has(node) {
            Some(Failure::UnknownNode)
        } else if self.nodes[node as int].parent != Some(parent) {
            Some(Failure::NotAChild)
        } else {
            None
        }
    }

    /// The tree with `node` taken out of the child list of its parent; unchanged if it has none.
    pub open spec fn unlinked(self, node: NodeId) -> HostView {
        match self.parent_of(node) {
            Some(p) => {
                let old_parent = self.nodes[p as int];
                let at = old_parent.children.index_of(node);
                self.with_node(
                    p,
                    NodeView { children: old_parent.children.remove(at), ..old_parent },
                ).with_node(node, NodeView { parent: None, ..self.nodes[node as int] })
            },
            None => self,
        }
    }

    pub open spec fn removed(self, parent: NodeId, node: NodeId) -> HostView {
        self.unlinked(node).logged(HostOp::Removed { parent, node })
    }

    // ---- insertion ---------------------------------------------------------------------

    pub open spec fn insert_failure(self, parent: NodeId, node: NodeId, anchor: Option<NodeId>)
        -> Option<Failure> {
        if !self.has(parent) || !self.has(node) || (anchor is Some && !self.has(anchor->0)) {
            Some(Failure::UnknownNode)
        } else if !self.nodes[parent as int].element {
            Some(Failure::NotAnElement)
        } else if self.reaches(parent, node, self.nodes.len()) {
            Some(Failure::Cycle)
        } else if anchor is Some && self.nodes[anchor->0 as int].parent != Some(parent) {
            Some(Failure::NotAChild)
        } else {
            None
        }
    }

    /// Where a node goes in the child list of `parent`: before `anchor`, or behind the last
    /// child.
    pub open spec fn position(self, parent: NodeId, anchor: Option<NodeId>) -> int {
        match anchor {
            Some(a) => self.nodes[parent as int].children.index_of(a),
            None => self.nodes[parent as int].children.len() as int,
        }
    }

    /// The tree with the parentless `node` put into the child list of `parent` at `at`.
    pub open spec fn linked(self, parent: NodeId, node: NodeId, at: int) -> HostView {
        let old_parent = self.nodes[parent as int];
        self.with_node(
            parent,
            NodeView { children: old_parent.children.insert(at, node), ..old_parent },
        ).with_node(node, NodeView { parent: Some(parent), ..self.nodes[node as int] })
    }

    /// The host after `node` was inserted below `parent`. A node that is in the tree is moved;
    /// a node that is its own anchor stays where it is.
    pub open spec fn inserted(self, parent: NodeId, node: NodeId, anchor: Option<NodeId>)
        -> HostView {
        let op = HostOp::Inserted { parent, node, anchor };
        if anchor == Some(node) {
            self.logged(op)
        } else {
            let cut = self.unlinked(node);
            cut.linked(parent, node, cut.position(parent, anchor)).logged(op)
        }
    }
}


/// Facts about child lists without duplicates.
pub proof fn lemma_remove_keeps(s: Seq<NodeId>, at: int)
    requires
        0 <= at < s.len(),
        s.no_duplicates(),
    ensures
        s.remove(at).no_duplicates(),
        !s.remove(at).contains(s[at]),
        forall|x: NodeId| x != s[at] && s.contains(x) ==> #[trigger] s.remove(at).contains(x),
        forall|x: NodeId| #[trigger] s.remove(at).contains(x) ==> s.contains(x),
{
    let r = s.remove(at);
    assert forall|x: NodeId| x != s[at] && s.contains(x) implies #[trigger] r.contains(x) by {
        let i = choose|i: int| 0 <= i < s.len() && s[i] == x;
        if i < at {
            assert(r[i] == x);
        } else {
            assert(r[i - 1] == x);
        }
    }
    assert forall|x: NodeId| #[trigger] r.contains(x) implies s.contains(x) by {
        let i = choose|i: int| 0 <= i < r.len() && r[i] == x;
        if i < at {
            assert(s[i] == x);
        } else {
            assert(s[i + 1] == x);
        }
    }
    if r.contains(s[at]) {
        let i = choose|i: int| 0 <= i < r.len() && r[i] == s[at];
        if i < at {
            assert(s[i] == s[at]);
        } else {
            assert(s[i + 1] == s[at]);
        }
    }
}

pub proof fn lemma_insert_keeps(s: Seq<NodeId>, at: int, x: NodeId)
    requires
        0 <= at <= s.len(),
        s.no_duplicates(),
        !s.contains(x),
    ensures
        s.insert(at, x).no_duplicates(),
        s.insert(at, x).contains(x),
        s.insert(at, x).index_of(x) == at,
        forall|y: NodeId| s.contains(y) ==> #[trigger] s.insert(at, x).contains(y),
        forall|y: NodeId| #[trigger] s.insert(at, x).contains(y) ==> y == x || s.contains(y),
        s.insert(at, x).remove(at) == s,
{
    let r = s.insert(at, x);
    assert(r[at] == x);
    assert forall|i: int, j: int| 0 <= i < r.len() && 0 <= j < r.len() && i != j implies r[i]
        != r[j] by {
        let a = if i < at { s[i] } else if i == at { x } else { s[i - 1] };
        let b = if j < at { s[j] } else if j == at { x } else { s[j - 1] };
        assert(r[i] == a);
        assert(r[j] == b);
        if i != at {
            assert(s.contains(a));
        }
        if j != at {
            assert(s.contains(b));
        }
    }
    assert forall|y: NodeId| s.contains(y) implies #[trigger] r.contains(y) by {
        let i = choose|i: int| 0 <= i < s.len() && s[i] == y;
        if i < at {
            assert(r[i] == y);
        } else {
            assert(r[i + 1] == y);
        }
    }
    assert forall|y: NodeId| #[trigger] r.contains(y) implies y == x || s.contains(y) by {
        let i = choose|i: int| 0 <= i < r.len() && r[i] == y;
        if i < at {
            assert(s[i] == y);
        } else if i > at {
            assert(s[i - 1] == y);
        }
    }
    let k = r.index_of(x);
    assert(0 <= k < r.len() && r[k] == x);
    assert(r.remove(at) =~= s);
}

impl HostView {
    /// Well-formedness speaks of the nodes alone, not of the log.
    pub proof fn lemma_wf_of_nodes(self, other: HostView)
        requires
            self.wf(),
            other.nodes == self.nodes,
        ensures
            other.wf(),
    {
        assert forall|n: NodeId| other.has(n) implies #[trigger] other.node_wf(n) by {
            assert(self.node_wf(n));
        }
    }

    /// Taking a node out of the tree keeps the tree well-formed and leaves the node without a
    /// parent.
    pub proof fn lemma_unlinked(self, node: NodeId)
        requires
            self.wf(),
            self.has(node),
        ensures
            self.unlinked(node).wf(),
            self.unlinked(node).nodes.len() == self.nodes.len(),
            self.unlinked(node).ops == self.ops,
            self.unlinked(node).parent_of(node) is None,
            forall|n: NodeId|
                self.has(n) && n != node ==> #[trigger] self.unlinked(node).parent_of(n)
                    == self.parent_of(n),
            forall|n: NodeId|
                self.has(n) && Some(n) != self.parent_of(node) ==> #[trigger] self.unlinked(
                    node,
                ).children_of(n) == self.children_of(n),
            forall|n: NodeId|
                self.has(n) ==> (#[trigger] self.unlinked(node).nodes[n as int]).element
                    == self.nodes[n as int].element && self.unlinked(node).nodes[n as int].data
                    == self.nodes[n as int].data && self.unlinked(node).nodes[n as int].listeners
                    == self.nodes[n as int].listeners,
            !self.unlinked(node).children_of(node).contains(node),
            forall|n: NodeId| self.has(n) ==> !(#[trigger] self.unlinked(node).children_of(n)).contains(node),
    {
        let after = self.unlinked(node);
        assert(self.node_wf(node));
        match self.parent_of(node) {
            Some(p) => {
                let kids = self.nodes[p as int].children;
                let at = kids.index_of(node);
                assert(kids.contains(node));
                assert(self.node_wf(p));
                lemma_remove_keeps(kids, at);
                assert forall|n: NodeId| after.has(n) implies #[trigger] after.node_wf(n) by {
                    assert(self.node_wf(n));
                    let before = self.nodes[n as int];
                    let now = after.nodes[n as int];
                    match now.parent {
                        Some(q) => {
                            assert(before.parent == Some(q));
                            if q == p {
                                assert(kids.contains(n));
                            }
                        },
                        None => {},
                    }
                    assert forall|k: int| 0 <= k < now.children.len() implies after.has(
                        #[trigger] now.children[k],
                    ) && after.nodes[now.children[k] as int].parent == Some(n) by {
                        let c = now.children[k];
                        if n == p {
                            assert(kids.remove(at).contains(c));
                            assert(kids.contains(c));
                            let i = choose|i: int| 0 <= i < kids.len() && kids[i] == c;
                            assert(self.has(kids[i]));
                        } else {
                            assert(before.children[k] == c);
                            if c == node {
                                assert(self.nodes[node as int].parent == Some(n));
                            }
                        }
                    }
                }
                assert forall|n: NodeId| self.has(n) implies !(#[trigger] after.children_of(
                    n,
                )).contains(node) by {
                    if n != p {
                        assert(self.node_wf(n));
                        if self.nodes[n as int].children.contains(node) {
                            let i = choose|i: int|
                                0 <= i < self.nodes[n as int].children.len()
                                    && self.nodes[n as int].children[i] == node;
                            assert(self.has(self.nodes[n as int].children[i]));
                        }
                    }
                }
            },
            None => {
                assert forall|n: NodeId| self.has(n) implies !(#[trigger] after.children_of(
                    n,
                )).contains(node) by {
                    assert(self.node_wf(n));
                    if self.nodes[n as int].children.contains(node) {
                        let i = choose|i: int|
                            0 <= i < self.nodes[n as int].children.len()
                                && self.nodes[n as int].children[i] == node;
                        assert(self.has(self.nodes[n as int].children[i]));
                    }
                }
            },
        }
    }

    /// Putting a parentless node into a child list keeps the tree well-formed.
    pub proof fn lemma_linked(self, parent: NodeId, node: NodeId, at: int)
        requires
            self.wf(),
            self.has(parent),
            self.has(node),
            parent != node,
            self.nodes[parent as int].element,
            self.nodes[node as int].parent is None,
            0 <= at <= self.nodes[parent as int].children.len(),
        ensures
            self.linked(parent, node, at).wf(),
            self.linked(parent, node, at).nodes.len() == self.nodes.len(),
            self.linked(parent, node, at).ops == self.ops,
            self.linked(parent, node, at).parent_of(node) == Some(parent),
            forall|n: NodeId|
                self.has(n) && n != node ==> #[trigger] self.linked(parent, node, at).parent_of(n)
                    == self.parent_of(n),
            forall|n: NodeId|
                self.has(n) && n != parent ==> #[trigger] self.linked(
                    parent,
                    node,
                    at,
                ).children_of(n) == self.children_of(n),
            self.linked(parent, node, at).children_of(parent) == self.children_of(parent).insert(
                at,
                node,
            ),
            forall|n: NodeId|
                self.has(n) ==> (#[trigger] self.linked(parent, node, at).nodes[n as int]).element
                    == self.nodes[n as int].element && self.linked(
                    parent,
                    node,
                    at,
                ).nodes[n as int].data == self.nodes[n as int].data && self.linked(
                    parent,
                    node,
                    at,
                ).nodes[n as int].listeners == self.nodes[n as int].listeners,
    {
        let after = self.linked(parent, node, at);
        let kids = self.nodes[parent as int].children;
        assert(self.node_wf(parent));
        assert(self.node_wf(node));
        if kids.contains(node) {
            let i = choose|i: int| 0 <= i < kids.len() && kids[i] == node;
            assert(self.has(kids[i]));
        }
        lemma_insert_keeps(kids, at, node);
        assert forall|n: NodeId| after.has(n) implies #[trigger] after.node_wf(n) by {
            assert(self.node_wf(n));
            let before = self.nodes[n as int];
            let now = after.nodes[n as int];
            match now.parent {
                Some(q) => {
                    if n != node {
                        assert(before.parent == Some(q));
                        if q == parent {
                            assert(kids.contains(n));
                        }
                    }
                },
                None => {},
            }
            assert forall|k: int| 0 <= k < now.children.len() implies after.has(
                #[trigger] now.children[k],
            ) && after.nodes[now.children[k] as int].parent == Some(n) by {
                let c = now.children[k];
                if n == parent {
                    assert(kids.insert(at, node).contains(c));
                    if c != node {
                        assert(kids.contains(c));
                        let i = choose|i: int| 0 <= i < kids.len() && kids[i] == c;
                        assert(self.has(kids[i]));
                    }
                } else {
                    assert(before.children[k] == c);
                    if c == node {
                        assert(self.nodes[node as int].parent == Some(n));
                    }
                }
            }
        }
    }
}


/// `list` without the nodes of `own`, in the same order.
pub open spec fn without(list: Seq<NodeId>, own: Seq<NodeId>) -> Seq<NodeId>
    decreases list.len(),
{
    if list.len() == 0 {
        list
    } else if own.contains(list.last()) {
        without(list.drop_last(), own)
    } else {
        without(list.drop_last(), own).push(list.last())
    }
}

pub proof fn lemma_without_add(a: Seq<NodeId>, b: Seq<NodeId>, own: Seq<NodeId>)
    ensures
        without(a + b, own) == without(a, own) + without(b, own),
    decreases b.len(),
{
    if b.len() == 0 {
        assert(a + b =~= a);
        assert(without(a, own) + without(b, own) =~= without(a, own));
    } else {
        assert((a + b).drop_last() =~= a + b.drop_last());
        assert((a + b).last() == b.last());
        lemma_without_add(a, b.drop_last(), own);
        assert(without(a, own) + without(b.drop_last(), own).push(b.last()) =~= (without(a, own)
            + without(b.drop_last(), own)).push(b.last()));
    }
}

/// Inserting a node of `own` changes nothing of the rest.
pub proof fn lemma_without_insert(list: Seq<NodeId>, own: Seq<NodeId>, at: int, node: NodeId)
    requires
        0 <= at <= list.len(),
        own.contains(node),
    ensures
        without(list.insert(at, node), own) == without(list, own),
{
    let front = list.subrange(0, at);
    let back = list.subrange(at, list.len() as int);
    assert(list =~= front + back);
    assert(front.push(node).drop_last() =~= front);
    assert(without(front.push(node), own) == without(front, own));
    lemma_without_add(front.push(node), back, own);
    lemma_without_add(front, back, own);
}

/// Removing a node of `own` changes nothing of the rest.
pub proof fn lemma_without_remove(list: Seq<NodeId>, own: Seq<NodeId>, at: int)
    requires
        0 <= at < list.len(),
        own.contains(list[at]),
    ensures
        without(list.remove(at), own) == without(list, own),
{
    let front = list.subrange(0, at);
    let back = list.subrange(at + 1, list.len() as int);
    assert(list =~= front.push(list[at]) + back);
    assert(front.push(list[at]).drop_last() =~= front);
    assert(without(front.push(list[at]), own) == without(front, own));
    lemma_without_add(front.push(list[at]), back, own);
    lemma_without_add(front, back, own);
}

/// A list that holds no node of `own` is its own rest.
pub proof fn lemma_without_none(list: Seq<NodeId>, own: Seq<NodeId>)
    requires
        forall|i: int| 0 <= i < list.len() ==> !own.contains(#[trigger] list[i]),
    ensures
        without(list, own) == list,
    decreases list.len(),
{
    if list.len() > 0 {
        assert(!own.contains(list[list.len() - 1]));
        assert forall|i: int| 0 <= i < list.drop_last().len() implies !own.contains(
            #[trigger] list.drop_last()[i],
        ) by {
            assert(list.drop_last()[i] == list[i]);
        }
        lemma_without_none(list.drop_last(), own);
        assert(list.drop_last().push(list.last()) =~= list);
    }
}

/// The nodes of `list` with a handle below `count` that are not in `own`, in the same order.
pub open spec fn others(list: Seq<NodeId>, own: Set<NodeId>, count: nat) -> Seq<NodeId>
    decreases list.len(),
{
    if list.len() == 0 {
        list
    } else if own.contains(list.last()) || list.last() >= count {
        others(list.drop_last(), own, count)
    } else {
        others(list.drop_last(), own, count).push(list.last())
    }
}

pub proof fn lemma_others_add(a: Seq<NodeId>, b: Seq<NodeId>, own: Set<NodeId>, count: nat)
    ensures
        others(a + b, own, count) == others(a, own, count) + others(b, own, count),
    decreases b.len(),
{
    if b.len() == 0 {
        assert(a + b =~= a);
        assert(others(a, own, count) + others(b, own, count) =~= others(a, own, count));
    } else {
        assert((a + b).drop_last() =~= a + b.drop_last());
        assert((a + b).last() == b.last());
        lemma_others_add(a, b.drop_last(), own, count);
        assert(others(a, own, count) + others(b.drop_last(), own, count).push(b.last()) =~= (others(
            a,
            own,
            count,
        ) + others(b.drop_last(), own, count)).push(b.last()));
    }
}

/// Inserting a node that does not count changes nothing of the others.
pub proof fn lemma_others_insert(
    list: Seq<NodeId>,
    own: Set<NodeId>,
    count: nat,
    at: int,
    node: NodeId,
)
    requires
        0 <= at <= list.len(),
        own.contains(node) || node >= count,
    ensures
        others(list.insert(at, node), own, count) == others(list, own, count),
{
    let front = list.subrange(0, at);
    let back = list.subrange(at, list.len() as int);
    assert(list =~= front + back);
    assert(list.insert(at, node) =~= front.push(node) + back);
    assert(front.push(node).drop_last() =~= front);
    assert(others(front.push(node), own, count) == others(front, own, count));
    lemma_others_add(front.push(node), back, own, count);
    lemma_others_add(front, back, own, count);
}

/// Removing a node that does not count changes nothing of the others.
pub proof fn lemma_others_remove(list: Seq<NodeId>, own: Set<NodeId>, count: nat, at: int)
    requires
        0 <= at < list.len(),
        own.contains(list[at]) || list[at] >= count,
    ensures
        others(list.remove(at), own, count) == others(list, own, count),
{
    let front = list.subrange(0, at);
    let back = list.subrange(at + 1, list.len() as int);
    assert(list =~= front.push(list[at]) + back);
    assert(list.remove(at) =~= front + back);
    assert(front.push(list[at]).drop_last() =~= front);
    assert(others(front.push(list[at]), own, count) == others(front, own, count));
    lemma_others_add(front.push(list[at]), back, own, count);
    lemma_others_add(front, back, own, count);
}

/// Leaving out more afterwards is leaving out more at once.
pub proof fn lemma_others_twice(
    list: Seq<NodeId>,
    own: Set<NodeId>,
    count: nat,
    more: Set<NodeId>,
    fewer: nat,
)
    requires
        forall|node: NodeId| node < fewer && !more.contains(node) ==> node < count && !own.contains(node),
    ensures
        others(others(list, own, count), more, fewer) == others(list, more, fewer),
    decreases list.len(),
{
    if list.len() > 0 {
        lemma_others_twice(list.drop_last(), own, count, more, fewer);
        let last = list.last();
        if !(own.contains(last) || last >= count) {
            let kept = others(list.drop_last(), own, count);
            assert(kept.push(last).drop_last() =~= kept);
        }
    }
}

/// Two lists with the same others have the same others when more is left out.
pub proof fn lemma_others_coarser(
    a: Seq<NodeId>,
    b: Seq<NodeId>,
    own: Set<NodeId>,
    count: nat,
    more: Set<NodeId>,
    fewer: nat,
)
    requires
        others(a, own, count) == others(b, own, count),
        forall|node: NodeId| node < fewer && !more.contains(node) ==> node < count && !own.contains(node),
    ensures
        others(a, more, fewer) == others(b, more, fewer),
{
    lemma_others_twice(a, own, count, more, fewer);
    lemma_others_twice(b, own, count, more, fewer);
}

impl HostView {
    /// Nothing is below a node without children: walking up from any other node never meets
    /// it.
    pub proof fn lemma_nothing_below(self, from: NodeId, target: NodeId, steps: nat)
        requires
            self.wf(),
            self.has(target),
            self.children_of(target).len() == 0,
            from != target,
        ensures
            !self.reaches(from, target, steps),
        decreases steps,
    {
        if steps > 0 {
            match self.parent_of(from) {
                Some(p) => {
                    if p == target {
                        assert(self.node_wf(from));
                        assert(self.nodes[target as int].children.contains(from));
                    } else {
                        self.lemma_nothing_below(p, target, (steps - 1) as nat);
                    }
                },
                None => {},
            }
        }
    }

    /// Inserting a node that has neither parent nor children succeeds below every element,
    /// in front of every child of that element, and changes the tree at two places only:
    /// the node gets the parent, and the child list of the parent gets the node.
    pub proof fn lemma_insert_loose(self, parent: NodeId, node: NodeId, anchor: Option<NodeId>)
        requires
            self.wf(),
            self.has(parent),
            self.has(node),
            parent != node,
            self.nodes[parent as int].element,
            self.parent_of(node) is None,
            self.children_of(node).len() == 0,
            match anchor {
                Some(a) => self.parent_of(a) == Some(parent) && a != node,
                None => true,
            },
        ensures
            self.insert_failure(parent, node, anchor) is None,
            ({
                let after = self.inserted(parent, node, anchor);
                &&& after.wf()
                &&& after.nodes.len() == self.nodes.len()
                &&& after.parent_of(node) == Some(parent)
                &&& forall|n: NodeId| n != node ==> #[trigger] after.parent_of(n) == self.parent_of(n)
                &&& forall|n: NodeId|
                    n != parent ==> #[trigger] after.children_of(n) == self.children_of(n)
                &&& exists|at: int|
                    0 <= at <= self.children_of(parent).len() && after.children_of(parent)
                        == #[trigger] self.children_of(parent).insert(at, node)
                &&& forall|n: NodeId|
                    self.has(n) ==> (#[trigger] after.nodes[n as int]).element
                        == self.nodes[n as int].element
            }),
    {
        self.lemma_nothing_below(parent, node, self.nodes.len());
        let at = self.position(parent, anchor);
        let kids = self.nodes[parent as int].children;
        match anchor {
            Some(a) => {
                assert(self.has(a));
                assert(self.node_wf(a));
                assert(kids.contains(a));
            },
            None => {},
        }
        assert(self.unlinked(node) == self);
        self.lemma_linked(parent, node, at);
        let linked = self.linked(parent, node, at);
        let after = self.inserted(parent, node, anchor);
        linked.lemma_wf_of_nodes(after);
        assert(after.nodes == linked.nodes);
        assert(after.children_of(parent) == self.children_of(parent).insert(at, node));
        assert forall|n: NodeId| n != node implies #[trigger] after.parent_of(n) == self.parent_of(
            n,
        ) by {
            if self.has(n) {
                assert(linked.parent_of(n) == self.parent_of(n));
            }
        }
        assert forall|n: NodeId| n != parent implies #[trigger] after.children_of(n)
            == self.children_of(n) by {
            if self.has(n) {
                assert(linked.children_of(n) == self.children_of(n));
            }
        }
    }

    /// Removing a node from the parent it has succeeds and changes the tree at two places
    /// only: the node loses its parent, and the child list of the parent loses the node.
    pub proof fn lemma_remove_attached(self, node: NodeId)
        requires
            self.wf(),
            self.has(node),
            self.parent_of(node) is Some,
        ensures
            self.remove_failure(self.parent_of(node)->0, node) is None,
            ({
                let parent = self.parent_of(node)->0;
                let after = self.removed(parent, node);
                &&& after.wf()
                &&& after.nodes.len() == self.nodes.len()
                &&& after.parent_of(node) is None
                &&& forall|n: NodeId| n != node ==> #[trigger] after.parent_of(n) == self.parent_of(n)
                &&& forall|n: NodeId|
                    n != parent ==> #[trigger] after.children_of(n) == self.children_of(n)
                &&& exists|at: int|
                    0 <= at < self.children_of(parent).len() && self.children_of(parent)[at] == node
                        && after.children_of(parent) == #[trigger] self.children_of(parent).remove(
                        at,
                    )
                &&& forall|n: NodeId|
                    self.has(n) ==> (#[trigger] after.nodes[n as int]).element
                        == self.nodes[n as int].element
            }),
    {
        let parent = self.parent_of(node)->0;
        assert(self.node_wf(node));
        self.lemma_unlinked(node);
        let cut = self.unlinked(node);
        let after = self.removed(parent, node);
        cut.lemma_wf_of_nodes(after);
        let kids = self.nodes[parent as int].children;
        let at = kids.index_of(node);
        assert(kids.contains(node));
        assert(after.children_of(parent) == self.children_of(parent).remove(at));
        assert forall|n: NodeId| n != node implies #[trigger] after.parent_of(n) == self.parent_of(
            n,
        ) by {
            if self.has(n) {
                assert(cut.parent_of(n) == self.parent_of(n));
            }
        }
        assert forall|n: NodeId| n != parent implies #[trigger] after.children_of(n)
            == self.children_of(n) by {
            if self.has(n) {
                assert(cut.children_of(n) == self.children_of(n));
            }
        }
    }
}


impl HostView {
    /// A node reaches itself in no steps, so an insertion that is not refused never puts a
    /// node below itself.
    pub proof fn lemma_insert_keeps_tree(self, parent: NodeId, node: NodeId, anchor: Option<NodeId>)
        requires
            self.wf(),
            self.insert_failure(parent, node, anchor) is None,
        ensures
            self.inserted(parent, node, anchor).wf(),
            self.inserted(parent, node, anchor).nodes.len() == self.nodes.len(),
    {
        let after = self.inserted(parent, node, anchor);
        if anchor == Some(node) {
            self.lemma_wf_of_nodes(after);
        } else {
            assert(parent != node);
            self.lemma_unlinked(node);
            let cut = self.unlinked(node);
            let at = cut.position(parent, anchor);
            match anchor {
                Some(a) => {
                    assert(cut.parent_of(a) == self.parent_of(a));
                    assert(cut.node_wf(a));
                    assert(cut.nodes[parent as int].children.contains(a));
                },
                None => {},
            }
            cut.lemma_linked(parent, node, at);
            cut.linked(parent, node, at).lemma_wf_of_nodes(after);
        }
    }

    /// A removal that is not refused leaves a well-formed tree with the same nodes.
    pub proof fn lemma_remove_keeps_tree(self, parent: NodeId, node: NodeId)
        requires
            self.wf(),
            self.remove_failure(parent, node) is None,
        ensures
            self.removed(parent, node).wf(),
            self.removed(parent, node).nodes.len() == self.nodes.len(),
    {
        self.lemma_unlinked(node);
        self.unlinked(node).lemma_wf_of_nodes(self.removed(parent, node));
    }

    /// Overwriting a text leaves the tree as it is.
    pub proof fn lemma_text_keeps_tree(self, node: NodeId, content: Seq<char>)
        requires
            self.wf(),
            self.text_failure(node) is None,
        ensures
            self.text_set(node, content).wf(),
            self.text_set(node, content).nodes.len() == self.nodes.len(),
    {
        let after = self.text_set(node, content);
        assert forall|n: NodeId| after.has(n) implies #[trigger] after.node_wf(n) by {
            assert(self.node_wf(n));
            let kids = after.nodes[n as int].children;
            assert forall|k: int| 0 <= k < kids.len() implies after.has(#[trigger] kids[k])
                && after.nodes[kids[k] as int].parent == Some(n) by {
                assert(self.has(kids[k]));
            }
        }
    }
}

} // verus!
