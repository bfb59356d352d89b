//! Descriptions of host elements and of their text.

pub mod event;
pub mod renderable;
pub mod text;

pub use self::event::EventType;
use vstd::prelude::*;

verus! {

/// The elements that can be described by kind.
#[derive(Clone, Copy, Debug, PartialEq, Eq, Structural)]
pub enum DomElementKind {
    Div,
    P,
    Button,
}

/// The elements that a fragment piece can be.
#[derive(Clone, Copy, Debug, PartialEq, Eq, Structural)]
pub enum ElementKind {
    P,
    Div,
}

/// A static piece of a fragment, by kind.
pub enum Kind {
    Text(String),
    Element(ElementKind),
}

/// The text content of an element.
pub enum TextContent {
    /// Content that does not change.
    Static(String),
    /// Content that is rendered again when one of its dependencies changes.
    Dynamic {
        /// The dependency ids that the content follows.
        dependencies: Vec<usize>,
        /// The number under which the component renders the content.
        update_type: usize,
    },
}

impl DomElementKind {
    pub open spec fn spec_tag(self) -> Seq<char> {
        match self {
            DomElementKind::Div => "div"@,
            DomElementKind::P => "p"@,
            DomElementKind::Button => "button"@,
        }
    }

    /// The tag of the element.
    pub fn tag(self) -> (tag: &'static str)
        ensures
            tag@ == self.spec_tag(),
    {
        match self {
            DomElementKind::Div => "div",
            DomElementKind::P => "p",
            DomElementKind::Button => "button",
        }
    }
}

impl Default for DomElementKind {
    fn default() -> (kind: Self)
        ensures
            kind == DomElementKind::Div,
    {
        DomElementKind::Div
    }
}

impl ElementKind {
    pub open spec fn spec_tag(self) -> Seq<char> {
        match self {
            ElementKind::P => "p"@,
            ElementKind::Div => "div"@,
        }
    }

    /// The tag of the element.
    pub fn tag(self) -> (tag: &'static str)
        ensures
            tag@ == self.spec_tag(),
    {
        match self {
            ElementKind::P => "p",
            ElementKind::Div => "div",
        }
    }
}

impl Kind {
    /// The description of the node that the piece stands for.
    pub fn node(&self) -> (node: crate::fragment::node::Node)
        ensures
            node@ == (match self {
                Kind::Text(content) => crate::fragment::node::NodeSpec {
                    element: false,
                    data: content@,
                    events: Seq::empty(),
                },
                Kind::Element(kind) => crate::fragment::node::NodeSpec {
                    element: true,
                    data: kind.spec_tag(),
                    events: Seq::empty(),
                },
            }),
    {
        match self {
            Kind::Text(content) => crate::fragment::node::Node::text(content.as_str()),
            Kind::Element(kind) => crate::fragment::node::Node::element(kind.tag()),
        }
    }
}

} // verus!
