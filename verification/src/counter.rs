//! A sample for rendering by path: a counter that two buttons change.

use vstd::prelude::*;
use crate::component::identifier::Identifier;
use crate::component::ids_of;
use crate::dom::event::EventType;

verus! {

/// The dependency id of the count.
pub const COUNT: usize = 0;

/// The dependency id of the number of increments.
pub const ONLY_UP: usize = 1;

/// A count that goes down and up, and the number of times it went up.
pub struct Counter {
    count: isize,
    only_up: usize,
}

/// A counter, seen from contracts.
pub ghost struct CounterView {
    pub count: int,
    pub only_up: nat,
}

/// Whether the path is that of the button that decrements.
pub open spec fn is_decrement(path: Seq<usize>) -> bool {
    path == seq![0usize, 2usize]
}

/// Whether the path is that of the button that increments.
pub open spec fn is_increment(path: Seq<usize>) -> bool {
    path == seq![0usize, 3usize]
}

impl View for Counter {
    type V = CounterView;

    closed spec fn view(&self) -> CounterView {
        CounterView { count: self.count as int, only_up: self.only_up as nat }
    }
}

impl Counter {
    /// A counter at zero.
    pub fn new() -> (counter: Self)
        ensures
            counter@ == (CounterView { count: 0, only_up: 0 }),
    {
        Counter { count: 0, only_up: 0 }
    }

    /// The count.
    pub fn count(&self) -> (count: isize)
        ensures
            count == self@.count,
    {
        self.count
    }

    /// The number of increments.
    pub fn only_up(&self) -> (only_up: usize)
        ensures
            only_up == self@.only_up,
    {
        self.only_up
    }

    /// Handles a click on the node with the path `id`: the button at `0.2` decrements the
    /// count, the button at `0.3` increments it. Reports the dependency ids that changed.
    pub fn handle_event(&mut self, id: &Identifier, event_type: EventType) -> (changed: Option<
        Vec<usize>,
    >)
        requires
            is_decrement(id@) ==> old(self)@.count > isize::MIN,
            is_increment(id@) ==> old(self)@.count < isize::MAX && old(self)@.only_up < usize::MAX,
        ensures
            is_decrement(id@) ==> final(self)@ == (CounterView {
                count: old(self)@.count - 1,
                ..old(self)@
            }) && ids_of(changed) == Some(seq![COUNT]),
            is_increment(id@) ==> final(self)@ == (CounterView {
                count: old(self)@.count + 1,
                only_up: old(self)@.only_up + 1,
            }) && ids_of(changed) == Some(seq![COUNT, ONLY_UP]),
            !is_decrement(id@) && !is_increment(id@) ==> final(self)@ == old(self)@ && changed
                is None,
    {
        let path = id.as_ref();
        if path.len() == 2 && path[0] == 0 && path[1] == 2 {
            assert(id@ =~= seq![0usize, 2usize]);
            self.count = self.count - 1;
            Some(vec![COUNT])
        } else if path.len() == 2 && path[0] == 0 && path[1] == 3 {
            assert(id@ =~= seq![0usize, 3usize]);
            self.count = self.count + 1;
            self.only_up = self.only_up + 1;
            Some(vec![COUNT, ONLY_UP])
        } else {
            assert(!is_decrement(id@)) by {
                if is_decrement(id@) {
                    assert(id@.len() == 2 && id@[0] == 0 && id@[1] == 2);
                }
            }
            assert(!is_increment(id@)) by {
                if is_increment(id@) {
                    assert(id@.len() == 2 && id@[0] == 0 && id@[1] == 3);
                }
            }
            None
        }
    }
}

} // verus!
