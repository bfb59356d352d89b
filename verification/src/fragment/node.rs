//! Descriptions of static host nodes.

use vstd::prelude::*;
use crate::fragment::event_registry::{EventRegistry, RegistryView};
use crate::host::Host;
use crate::host::model::{HostView, NodeId};

verus! {

/// Whether a described node is a text node or an element.
pub enum NodeType {
    /// A text node with the given content.
    Text(String),
    /// An element with the given tag, such as `p` or `div`.
    Element(String),
}

/// The description of a static node: its kind, and the events it listens to, each with the
/// event id that the component receives when the event fires.
pub struct Node {
    node_type: NodeType,
    events: Vec<(String, usize)>,
}

/// What a node description says, seen from contracts.
pub ghost struct NodeSpec {
    pub element: bool,
    /// The tag of an element, the content of a text node.
    pub data: Seq<char>,
    /// Event name and event id of each binding, in the order given.
    pub events: Seq<(Seq<char>, usize)>,
}

impl NodeSpec {
    /// The host after the first `k` event bindings were attached to `node`, each with the
    /// callback that the registry had for its event id by then.
    pub open spec fn listened(self, host: HostView, node: NodeId, registry: RegistryView, k: nat)
        -> HostView
        decreases k,
    {
        if k == 0 {
            host
        } else {
            self.listened(host, node, registry, (k - 1) as nat).listening(
                node,
                self.events[k - 1].0,
                self.asked(registry, (k - 1) as nat).callback(self.events[k - 1].1),
            )
        }
    }

    /// The registry after the first `k` event ids were asked for.
    pub open spec fn asked(self, registry: RegistryView, k: nat) -> RegistryView
        decreases k,
    {
        if k == 0 {
            registry
        } else {
            self.asked(registry, (k - 1) as nat).asked(self.events[k - 1].1)
        }
    }

    /// The host after the described node was created in it, with all its listeners. The new
    /// node has the old number of nodes as its handle.
    pub open spec fn created(self, host: HostView, registry: RegistryView) -> HostView {
        self.listened(
            host.created(self.element, self.data),
            host.nodes.len() as usize,
            registry,
            self.events.len(),
        )
    }

    /// Attaching listeners changes neither the number of nodes nor the shape of the tree.
    pub proof fn lemma_listened(self, host: HostView, node: NodeId, registry: RegistryView, k: nat)
        requires
            host.wf(),
            host.has(node),
        ensures
            self.listened(host, node, registry, k).wf(),
            self.listened(host, node, registry, k).nodes.len() == host.nodes.len(),
            forall|n: NodeId|
                host.has(n) ==> {
                    let after = #[trigger] self.listened(host, node, registry, k).nodes[n as int];
                    &&& after.parent == host.nodes[n as int].parent
                    &&& after.children == host.nodes[n as int].children
                    &&& after.element == host.nodes[n as int].element
                    &&& after.data == host.nodes[n as int].data
                },
        decreases k,
    {
        if k > 0 {
            self.lemma_listened(host, node, registry, (k - 1) as nat);
            let before = self.listened(host, node, registry, (k - 1) as nat);
            let after = self.listened(host, node, registry, k);
            assert forall|n: NodeId| after.has(n) implies #[trigger] after.node_wf(n) by {
                assert(before.node_wf(n));
                let kids = after.nodes[n as int].children;
                assert forall|j: int| 0 <= j < kids.len() implies after.has(#[trigger] kids[j])
                    && after.nodes[kids[j] as int].parent == Some(n) by {
                    assert(before.has(kids[j]));
                }
            }
        }
    }
}

impl View for Node {
    type V = NodeSpec;

    closed spec fn view(&self) -> NodeSpec {
        NodeSpec {
            element: self.node_type is Element,
            data: match self.node_type {
                NodeType::Text(content) => content@,
                NodeType::Element(tag) => tag@,
            },
            events: Seq::new(
                self.events@.len(),
                |i: int| (self.events@[i].0@, self.events@[i].1),
            ),
        }
    }
}

impl Node {
    /// Describes a text node with the given content.
    pub fn text(content: &str) -> (node: Self)
        ensures
            node@ == (NodeSpec { element: false, data: content@, events: Seq::empty() }),
    {
        let node = Node { node_type: NodeType::Text(content.to_owned()), events: Vec::new() };
        assert(node@.events =~= Seq::empty());
        node
    }

    /// Describes an element with the given tag.
    pub fn element(kind: &str) -> (node: Self)
        ensures
            node@ == (NodeSpec { element: true, data: kind@, events: Seq::empty() }),
    {
        let node = Node { node_type: NodeType::Element(kind.to_owned()), events: Vec::new() };
        assert(node@.events =~= Seq::empty());
        node
    }

    /// Adds a binding: when the named event fires on the node, the component receives
    /// `event_id`.
    pub fn with_event(self, event_type: &str, event_id: usize) -> (node: Self)
        ensures
            node@ == (NodeSpec {
                events: self@.events.push((event_type@, event_id)),
                ..self@
            }),
    {
        let mut node = self;
        node.events.push((event_type.to_owned(), event_id));
        assert(node@.events =~= self@.events.push((event_type@, event_id)));
        node
    }

    /// Creates the described node in `host` and attaches a listener for each of its bindings,
    /// with the callback that `event_registry` holds for the event id.
    pub fn create_node(&self, host: &mut Host, event_registry: &mut EventRegistry) -> (node:
        NodeId)
        requires
            old(host)@.wf(),
        ensures
            node == old(host)@.nodes.len(),
            final(host)@ == self@.created(old(host)@, old(event_registry)@),
            final(host)@.wf(),
            final(event_registry)@ == self@.asked(old(event_registry)@, self@.events.len()),
    {
        let node = match &self.node_type {
            NodeType::Element(tag) => host.create_element(tag.as_str()),
            NodeType::Text(content) => host.create_text_node(content.as_str()),
        };
        let ghost made = host@;
        let ghost start = event_registry@;
        let mut k: usize = 0;
        while k < self.events.len()
            invariant
                k <= self.events@.len(),
                self@.events.len() == self.events@.len(),
                made.wf(),
                made.has(node),
                host@ == self@.listened(made, node, start, k as nat),
                host@.wf(),
                host@.nodes.len() == made.nodes.len(),
                event_registry@ == self@.asked(start, k as nat),
            decreases self.events@.len() - k,
        {
            let callback = event_registry.get(self.events[k].1);
            let bound = host.add_event_listener(node, self.events[k].0.as_str(), callback);
            proof {
                self@.lemma_listened(made, node, start, (k + 1) as nat);
            }
            k += 1;
        }
        node
    }
}

} // verus!
