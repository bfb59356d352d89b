//! The host tree that fragments are mounted into.
//!
//! A [`Host`] mirrors the part of the host document that this library controls: the nodes it
//! has created, how they hang together, their texts and their listeners. Every change is also
//! written to a log, from which the embedding program repeats it on the real document.

pub mod model;

use vstd::prelude::*;
use self::model::{Failure, HostCallback, HostOp, HostView, NodeId, NodeView};
use self::model::{lemma_insert_keeps, lemma_remove_keeps};

verus! {

struct HostNode {
    element: bool,
    data: String,
    parent: Option<NodeId>,
    children: Vec<NodeId>,
    listeners: Vec<(String, HostCallback)>,
}

impl HostNode {
    spec fn view(&self) -> NodeView {
        NodeView {
            element: self.element,
            data: self.data@,
            parent: self.parent,
            children: self.children@,
            listeners: Seq::new(
                self.listeners@.len(),
                |i: int| (self.listeners@[i].0@, self.listeners@[i].1),
            ),
        }
    }
}

spec fn nodes_view(nodes: Seq<HostNode>) -> Seq<NodeView> {
    Seq::new(nodes.len(), |i: int| nodes[i]@)
}

/// The tree that a node table stands for, without a log.
spec fn tree(nodes: Seq<HostNode>) -> HostView {
    HostView { nodes: nodes_view(nodes), ops: Seq::empty() }
}

/// The host tree, with the log of the changes made to it.
pub struct Host {
    nodes: Vec<HostNode>,
    ops: Vec<HostOp>,
}

impl View for Host {
    type V = HostView;

    closed spec fn view(&self) -> HostView {
        HostView { nodes: nodes_view(self.nodes@), ops: self.ops@ }
    }
}

/// Position of `x` in `list`, if it occurs.
fn find(list: &Vec<NodeId>, x: NodeId) -> (r: Option<usize>)
    ensures
        match r {
            Some(i) => i < list@.len() && list@[i as int] == x,
            None => !list@.contains(x),
        },
{
    let mut i: usize = 0;
    while i < list.len()
        invariant
            i <= list@.len(),
            forall|j: int| 0 <= j < i ==> list@[j] != x,
        decreases list@.len() - i,
    {
        if list[i] == x {
            return Some(i);
        }
        i += 1;
    }
    None
}

/// Takes `node` out of the child list of its parent, if it has one.
fn unlink(nodes: &mut Vec<HostNode>, node: NodeId)
    requires
        tree(old(nodes)@).wf(),
        node < old(nodes)@.len(),
    ensures
        nodes_view(final(nodes)@) == tree(old(nodes)@).unlinked(node).nodes,
        final(nodes)@.len() == old(nodes)@.len(),
        tree(final(nodes)@).wf(),
{
    let ghost before = tree(nodes@);
    proof {
        before.lemma_unlinked(node);
    }
    assert(before.node_wf(node));
    let parent = nodes[node].parent;
    match parent {
        Some(p) => {
            assert(before.node_wf(p));
            let found = find(&nodes[p].children, node);
            let ghost kids = nodes@[p as int].children@;
            assert(kids.contains(node));
            let at = found.unwrap();
            proof {
                let chosen = kids.index_of(node);
                assert(kids[chosen] == node);
                assert(chosen == at);
            }
            nodes[p].children.remove(at);
            nodes[node].parent = None;
            assert(nodes_view(nodes@) =~= before.unlinked(node).nodes);
        },
        None => {},
    }
}


/// Puts the parentless `node` into the child list of `parent` at `at`.
fn link(nodes: &mut Vec<HostNode>, parent: NodeId, node: NodeId, at: usize)
    requires
        tree(old(nodes)@).wf(),
        parent < old(nodes)@.len(),
        node < old(nodes)@.len(),
        parent != node,
        old(nodes)@[parent as int].element,
        old(nodes)@[node as int].parent is None,
        at <= old(nodes)@[parent as int].children@.len(),
    ensures
        nodes_view(final(nodes)@) == tree(old(nodes)@).linked(parent, node, at as int).nodes,
        final(nodes)@.len() == old(nodes)@.len(),
        tree(final(nodes)@).wf(),
{
    let ghost before = tree(nodes@);
    proof {
        before.lemma_linked(parent, node, at as int);
    }
    nodes[parent].children.insert(at, node);
    nodes[node].parent = Some(parent);
    assert(nodes_view(nodes@) =~= before.linked(parent, node, at as int).nodes);
}

impl Host {
    /// An empty host: no node, nothing logged.
    pub fn new() -> (host: Host)
        ensures
            host@ == HostView::empty(),
            host@.wf(),
    {
        let host = Host { nodes: Vec::new(), ops: Vec::new() };
        assert(host@.nodes =~= Seq::empty());
        host
    }

    /// The number of nodes created so far; the next node gets this number as its handle.
    pub fn len(&self) -> (n: usize)
        ensures
            n == self@.nodes.len(),
    {
        self.nodes.len()
    }

    fn create(&mut self, element: bool, data: &str) -> (node: NodeId)
        requires
            old(self)@.wf(),
        ensures
            node == old(self)@.nodes.len(),
            final(self)@ == old(self)@.created(element, data@),
            final(self)@.wf(),
    {
        let ghost before = self@;
        proof {
            before.lemma_wf_of_nodes(tree(self.nodes@));
        }
        let node = self.nodes.len();
        let fresh = HostNode {
            element,
            data: data.to_owned(),
            parent: None,
            children: Vec::new(),
            listeners: Vec::new(),
        };
        assert(fresh@.listeners =~= Seq::empty());
        let ghost old_nodes = self.nodes@;
        self.nodes.push(fresh);
        proof {
            let after = tree(self.nodes@);
            assert(after.nodes =~= before.nodes.push(NodeView::fresh(element, data@)));
            assert forall|n: NodeId| after.has(n) implies #[trigger] after.node_wf(n) by {
                if n < old_nodes.len() {
                    assert(tree(old_nodes).node_wf(n));
                    let kids = after.nodes[n as int].children;
                    assert forall|k: int| 0 <= k < kids.len() implies after.has(
                        #[trigger] kids[k],
                    ) && after.nodes[kids[k] as int].parent == Some(n) by {
                        assert(tree(old_nodes).has(kids[k]));
                    }
                }
            }
        }
        self.ops.push(HostOp::Created { node });
        proof {
            tree(self.nodes@).lemma_wf_of_nodes(self@);
        }
        node
    }

    /// Creates an element with the given tag. It has no parent, no children and no listeners.
    pub fn create_element(&mut self, tag: &str) -> (node: NodeId)
        requires
            old(self)@.wf(),
        ensures
            node == old(self)@.nodes.len(),
            final(self)@ == old(self)@.created(true, tag@),
            final(self)@.wf(),
    {
        self.create(true, tag)
    }

    /// Creates a text node with the given content. It has no parent and no listeners.
    pub fn create_text_node(&mut self, content: &str) -> (node: NodeId)
        requires
            old(self)@.wf(),
        ensures
            node == old(self)@.nodes.len(),
            final(self)@ == old(self)@.created(false, content@),
            final(self)@.wf(),
    {
        self.create(false, content)
    }

    /// Overwrites the content of a text node.
    pub fn set_text_data(&mut self, node: NodeId, content: &str) -> (r: Result<(), Failure>)
        requires
            old(self)@.wf(),
        ensures
            final(self)@.wf(),
            match old(self)@.text_failure(node) {
                Some(failure) => r == Err::<(), Failure>(failure) && final(self)@ == old(self)@,
                None => r is Ok && final(self)@ == old(self)@.text_set(node, content@),
            },
    {
        if node >= self.nodes.len() {
            return Err(Failure::UnknownNode);
        }
        if self.nodes[node].element {
            return Err(Failure::NotText);
        }
        proof {
            self@.lemma_wf_of_nodes(tree(self.nodes@));
        }
        set_data(&mut self.nodes, node, content);
        self.ops.push(HostOp::TextSet { node });
        proof {
            tree(self.nodes@).lemma_wf_of_nodes(self@);
        }
        Ok(())
    }

    /// The parent of `node`: `None` while it is outside the tree, and for an unknown handle.
    pub fn get_parent(&self, node: NodeId) -> (parent: Option<NodeId>)
        ensures
            parent == self@.parent_of(node),
    {
        if node < self.nodes.len() {
            self.nodes[node].parent
        } else {
            None
        }
    }

    /// Whether walking up from `from` meets `target`.
    fn below(&self, from: NodeId, target: NodeId) -> (b: bool)
        requires
            self@.wf(),
            self@.has(from),
        ensures
            b == self@.reaches(from, target, self@.nodes.len()),
    {
        let n = self.nodes.len();
        let mut cur = from;
        let mut left = n;
        loop
            invariant
                n == self@.nodes.len(),
                self@.wf(),
                cur < n,
                left <= n,
                self@.reaches(from, target, n as nat) == self@.reaches(cur, target, left as nat),
            decreases left,
        {
            if cur == target {
                return true;
            }
            if left == 0 {
                return false;
            }
            assert(self@.node_wf(cur));
            match self.nodes[cur].parent {
                Some(p) => {
                    cur = p;
                    left -= 1;
                },
                None => {
                    return false;
                },
            }
        }
    }

    /// Inserts `node` below `parent`, before `anchor` or, without one, as the last child. A
    /// node that is in the tree already is moved.
    pub fn insert_before(&mut self, parent: NodeId, node: NodeId, anchor: Option<NodeId>) -> (r:
        Result<(), Failure>)
        requires
            old(self)@.wf(),
        ensures
            final(self)@.wf(),
            match old(self)@.insert_failure(parent, node, anchor) {
                Some(failure) => r == Err::<(), Failure>(failure) && final(self)@ == old(self)@,
                None => r is Ok && final(self)@ == old(self)@.inserted(parent, node, anchor),
            },
    {
        let n = self.nodes.len();
        if parent >= n || node >= n {
            return Err(Failure::UnknownNode);
        }
        if let Some(a) = anchor {
            if a >= n {
                return Err(Failure::UnknownNode);
            }
        }
        if !self.nodes[parent].element {
            return Err(Failure::NotAnElement);
        }
        if self.below(parent, node) {
            return Err(Failure::Cycle);
        }
        if let Some(a) = anchor {
            if self.nodes[a].parent != Some(parent) {
                return Err(Failure::NotAChild);
            }
        }
        let ghost before = self@;
        let ghost start = tree(self.nodes@);
        proof {
            before.lemma_wf_of_nodes(start);
        }
        if anchor != Some(node) {
            unlink(&mut self.nodes, node);
            let ghost cut = tree(self.nodes@);
            proof {
                start.lemma_unlinked(node);
                assert(parent != node);
            }
            let at = match anchor {
                Some(a) => {
                    assert(cut.node_wf(a));
                    let found = find(&self.nodes[parent].children, a);
                    let ghost kids = self.nodes@[parent as int].children@;
                    assert(start.parent_of(a) == Some(parent));
                    assert(cut.parent_of(a) == Some(parent));
                    assert(cut.nodes[parent as int].children == kids);
                    assert(kids.contains(a));
                    assert(cut.node_wf(parent));
                    proof {
                        let chosen = kids.index_of(a);
                        assert(kids[chosen] == a);
                    }
                    found.unwrap()
                },
                None => self.nodes[parent].children.len(),
            };
            assert(at == cut.position(parent, anchor));
            link(&mut self.nodes, parent, node, at);
        }
        self.ops.push(HostOp::Inserted { parent, node, anchor });
        proof {
            tree(self.nodes@).lemma_wf_of_nodes(self@);
        }
        Ok(())
    }

    /// Removes `node` from the child list of `parent`.
    pub fn remove_child(&mut self, parent: NodeId, node: NodeId) -> (r: Result<(), Failure>)
        requires
            old(self)@.wf(),
        ensures
            final(self)@.wf(),
            match old(self)@.remove_failure(parent, node) {
                Some(failure) => r == Err::<(), Failure>(failure) && final(self)@ == old(self)@,
                None => r is Ok && final(self)@ == old(self)@.removed(parent, node),
            },
    {
        let n = self.nodes.len();
        if parent >= n || node >= n {
            return Err(Failure::UnknownNode);
        }
        if self.nodes[node].parent != Some(parent) {
            return Err(Failure::NotAChild);
        }
        proof {
            self@.lemma_wf_of_nodes(tree(self.nodes@));
        }
        unlink(&mut self.nodes, node);
        self.ops.push(HostOp::Removed { parent, node });
        proof {
            tree(self.nodes@).lemma_wf_of_nodes(self@);
        }
        Ok(())
    }
}

/// Overwrites the data of one node.
fn set_data(nodes: &mut Vec<HostNode>, node: NodeId, content: &str)
    requires
        tree(old(nodes)@).wf(),
        node < old(nodes)@.len(),
    ensures
        nodes_view(final(nodes)@) == tree(old(nodes)@).with_node(
            node,
            NodeView { data: content@, ..nodes_view(old(nodes)@)[node as int] },
        ).nodes,
        tree(final(nodes)@).wf(),
{
    let ghost before = tree(nodes@);
    nodes[node].data = content.to_owned();
    proof {
        let after = tree(nodes@);
        assert(after.nodes =~= before.with_node(
            node,
            NodeView { data: content@, ..before.nodes[node as int] },
        ).nodes);
        assert forall|n: NodeId| after.has(n) implies #[trigger] after.node_wf(n) by {
            assert(before.node_wf(n));
            let kids = after.nodes[n as int].children;
            assert forall|k: int| 0 <= k < kids.len() implies after.has(#[trigger] kids[k])
                && after.nodes[kids[k] as int].parent == Some(n) by {
                assert(before.has(kids[k]));
            }
        }
    }
}


/// Appends one listener to one node.
fn push_listener(nodes: &mut Vec<HostNode>, node: NodeId, name: &str, callback: HostCallback)
    requires
        tree(old(nodes)@).wf(),
        node < old(nodes)@.len(),
    ensures
        nodes_view(final(nodes)@) == tree(old(nodes)@).with_node(
            node,
            NodeView {
                listeners: nodes_view(old(nodes)@)[node as int].listeners.push((name@, callback)),
                ..nodes_view(old(nodes)@)[node as int]
            },
        ).nodes,
        tree(final(nodes)@).wf(),
{
    let ghost before = tree(nodes@);
    nodes[node].listeners.push((name.to_owned(), callback));
    proof {
        let after = tree(nodes@);
        assert(after.nodes[node as int].listeners =~= before.nodes[node as int].listeners.push(
            (name@, callback),
        ));
        assert(after.nodes =~= before.with_node(
            node,
            NodeView {
                listeners: before.nodes[node as int].listeners.push((name@, callback)),
                ..before.nodes[node as int]
            },
        ).nodes);
        assert forall|n: NodeId| after.has(n) implies #[trigger] after.node_wf(n) by {
            assert(before.node_wf(n));
            let kids = after.nodes[n as int].children;
            assert forall|k: int| 0 <= k < kids.len() implies after.has(#[trigger] kids[k])
                && after.nodes[kids[k] as int].parent == Some(n) by {
                assert(before.has(kids[k]));
            }
        }
    }
}

impl Host {
    /// Attaches a listener for the named event to `node`.
    pub fn add_event_listener(&mut self, node: NodeId, event_name: &str, callback: HostCallback)
        -> (r: Result<(), Failure>)
        requires
            old(self)@.wf(),
        ensures
            final(self)@.wf(),
            match old(self)@.listen_failure(node) {
                Some(failure) => r == Err::<(), Failure>(failure) && final(self)@ == old(self)@,
                None => r is Ok && final(self)@ == old(self)@.listening(
                    node,
                    event_name@,
                    callback,
                ),
            },
    {
        if node >= self.nodes.len() {
            return Err(Failure::UnknownNode);
        }
        proof {
            self@.lemma_wf_of_nodes(tree(self.nodes@));
        }
        let listener = self.nodes[node].listeners.len();
        push_listener(&mut self.nodes, node, event_name, callback);
        self.ops.push(HostOp::Listening { node, listener });
        proof {
            tree(self.nodes@).lemma_wf_of_nodes(self@);
        }
        Ok(())
    }

    /// Whether `node` is an element; false for a text node and for an unknown handle.
    pub fn is_element(&self, node: NodeId) -> (b: bool)
        ensures
            b == (self@.has(node) && self@.nodes[node as int].element),
    {
        node < self.nodes.len() && self.nodes[node].element
    }

    /// The tag of an element or the content of a text node; `None` for an unknown handle.
    pub fn data(&self, node: NodeId) -> (r: Option<String>)
        ensures
            match r {
                Some(text) => self@.has(node) && text@ == self@.nodes[node as int].data,
                None => !self@.has(node),
            },
    {
        if node < self.nodes.len() {
            Some(self.nodes[node].data.clone())
        } else {
            None
        }
    }

    /// The children of `node` in document order; empty for an unknown handle.
    pub fn children(&self, node: NodeId) -> (r: Vec<NodeId>)
        ensures
            r@ == self@.children_of(node),
    {
        let mut r: Vec<NodeId> = Vec::new();
        if node < self.nodes.len() {
            let kids = &self.nodes[node].children;
            let mut i: usize = 0;
            while i < kids.len()
                invariant
                    i <= kids@.len(),
                    r@ == kids@.subrange(0, i as int),
                decreases kids@.len() - i,
            {
                r.push(kids[i]);
                assert(r@ =~= kids@.subrange(0, i + 1));
                i += 1;
            }
            assert(r@ =~= kids@);
        }
        r
    }

    /// The number of listeners on `node`; zero for an unknown handle.
    pub fn listener_count(&self, node: NodeId) -> (n: usize)
        ensures
            n == (if self@.has(node) {
                self@.nodes[node as int].listeners.len()
            } else {
                0
            }),
    {
        if node < self.nodes.len() {
            self.nodes[node].listeners.len()
        } else {
            0
        }
    }

    /// Event name and callback of listener number `index` on `node`.
    pub fn listener(&self, node: NodeId, index: usize) -> (r: Option<(String, HostCallback)>)
        ensures
            match r {
                Some((name, callback)) => self@.has(node) && index
                    < self@.nodes[node as int].listeners.len() && (name@, callback)
                    == self@.nodes[node as int].listeners[index as int],
                None => !self@.has(node) || index >= self@.nodes[node as int].listeners.len(),
            },
    {
        if node < self.nodes.len() && index < self.nodes[node].listeners.len() {
            let entry = &self.nodes[node].listeners[index];
            Some((entry.0.clone(), entry.1))
        } else {
            None
        }
    }

    /// Hands out the log of changes made since it was last taken, and empties it.
    pub fn take_ops(&mut self) -> (ops: Vec<HostOp>)
        ensures
            ops@ == old(self)@.ops,
            final(self)@ == old(self)@.drained(),
    {
        let mut ops: Vec<HostOp> = Vec::new();
        std::mem::swap(&mut ops, &mut self.ops);
        ops
    }
}

} // verus!
