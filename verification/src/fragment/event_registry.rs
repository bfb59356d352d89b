//! The callbacks of one controller.

use std::collections::HashMap;
use vstd::prelude::*;
use crate::host::model::HostCallback;

verus! {

broadcast use vstd::std_specs::hash::group_hash_axioms;

/// Caches the host callback of each event id. A callback is made when its event id is first
/// asked for and is handed out again on every later request; none is ever dropped.
pub struct EventRegistry {
    /// Cached callbacks.
    closures: HashMap<usize, HostCallback>,
    /// The token of the controller that every callback reports to.
    register_event: usize,
}

/// What a registry is, seen from contracts.
pub ghost struct RegistryView {
    /// The token of the owning controller.
    pub owner: usize,
    /// The callback cached for each event id asked for so far.
    pub closures: Map<usize, HostCallback>,
}

impl RegistryView {
    /// The callback of `event_id`: the cached one, or a new one for the owner.
    pub open spec fn callback(self, event_id: usize) -> HostCallback {
        if self.closures.contains_key(event_id) {
            self.closures[event_id]
        } else {
            HostCallback { owner: self.owner, event_id }
        }
    }

    /// The registry after `event_id` was asked for.
    pub open spec fn asked(self, event_id: usize) -> RegistryView {
        RegistryView { closures: self.closures.insert(event_id, self.callback(event_id)), ..self }
    }

    /// Every cached callback is the one that was made for its event id.
    pub open spec fn wf(self) -> bool {
        forall|event_id: usize| #[trigger]
            self.closures.contains_key(event_id) ==> self.closures[event_id] == (HostCallback {
                owner: self.owner,
                event_id,
            })
    }
}

impl View for EventRegistry {
    type V = RegistryView;

    closed spec fn view(&self) -> RegistryView {
        RegistryView { owner: self.register_event, closures: self.closures@ }
    }
}

impl EventRegistry {
    /// A registry without callbacks, for the controller with the token `register_event`.
    pub fn new(register_event: usize) -> (registry: Self)
        ensures
            registry@ == (RegistryView { owner: register_event, closures: Map::empty() }),
            registry@.wf(),
    {
        EventRegistry { closures: HashMap::new(), register_event }
    }

    /// The token of the owning controller.
    pub fn owner(&self) -> (owner: usize)
        ensures
            owner == self@.owner,
    {
        self.register_event
    }

    /// The callback for `event_id`, made now if this is the first request for it.
    pub fn get(&mut self, event_id: usize) -> (callback: HostCallback)
        ensures
            callback == old(self)@.callback(event_id),
            final(self)@ == old(self)@.asked(event_id),
            old(self)@.wf() ==> final(self)@.wf(),
    {
        let owner = self.register_event;
        let slot = self.closures.entry(event_id).or_insert(HostCallback { owner, event_id });
        *slot
    }

    /// Whether a callback for `event_id` exists already.
    pub fn is_cached(&self, event_id: usize) -> (cached: bool)
        ensures
            cached == self@.closures.contains_key(event_id),
    {
        self.closures.contains_key(&event_id)
    }

    /// The number of callbacks made so far.
    pub fn len(&self) -> (n: usize)
        ensures
            n == self@.closures.dom().len(),
    {
        self.closures.len()
    }
}


impl RegistryView {
    /// A registry hands out one callback for each event id: asking again for an event id
    /// gives the callback that the first request gave, and no two event ids share a
    /// callback. This holds in whatever order the requests come.
    pub proof fn lemma_one_callback_for_each_event(self, first: usize, second: usize)
        requires
            self.wf(),
        ensures
            self.asked(first).wf(),
            self.asked(first).callback(first) == self.callback(first),
            self.asked(first).asked(second).callback(first) == self.callback(first),
            first != second ==> self.asked(first).callback(second) != self.callback(first),
            first != second ==> self.callback(second) != self.callback(first),
    {
        assert(self.callback(first).event_id == first);
        assert(self.callback(second).event_id == second);
        assert(self.asked(first).callback(second).event_id == second);
    }
}

} // verus!
