//! The events that a node can listen to.

use vstd::prelude::*;
use vstd::string::StringExecFns;

verus! {

/// A kind of host event.
#[derive(Debug, Clone, Copy, PartialEq, Eq, Hash, Structural)]
pub enum EventType {
    Click,
}

impl EventType {
    /// The name under which the host knows the event.
    pub open spec fn spec_name(self) -> Seq<char> {
        match self {
            EventType::Click => "click"@,
        }
    }

    /// The name under which listeners for the event are attached.
    pub fn name(self) -> (name: String)
        ensures
            name@ == self.spec_name(),
    {
        match self {
            EventType::Click => String::from_str("click"),
        }
    }
}

} // verus!
