//! Components, and the paths that name their rendered nodes.

pub mod identifier;

pub use self::identifier::Identifier;
use vstd::prelude::*;
use crate::fragment::builder::{BuilderView, FragmentBuilder};

verus! {

/// The dependency ids in an optional list.
pub open spec fn ids_of(changed: Option<Vec<usize>>) -> Option<Seq<usize>> {
    match changed {
        Some(ids) => Some(ids@),
        None => None,
    }
}

/// What each builder of a list describes.
pub open spec fn described<C>(builders: Seq<FragmentBuilder<C>>) -> Seq<BuilderView<C>> {
    Seq::new(builders.len(), |i: int| builders[i]@)
}

/// A component: state, the description of its view, and its answers for the dynamic parts of
/// that view. The parts name a producer by number; the component decides what stands behind
/// each number.
///
/// Every answer is a function of the component's state. The spec functions say which: an
/// implementation that is verified defines them, and its methods are held to them. Left at
/// their defaults they say nothing, and the contracts of the engine then speak of values
/// that nothing is known about.
pub trait Component: Sized {
    /// The description of the component's view.
    open spec fn rendered(&self) -> BuilderView<Self> {
        arbitrary()
    }

    /// The state after the event was handled.
    open spec fn after_event(&self, event_id: usize) -> Self {
        arbitrary()
    }

    /// The dependency ids that the event changes, or `None` where it changes nothing.
    open spec fn changed_by(&self, event_id: usize) -> Option<Seq<usize>> {
        arbitrary()
    }

    /// The text of the text binding `get_text`.
    open spec fn text_of(&self, get_text: usize) -> Seq<char> {
        arbitrary()
    }

    /// Whether the conditional `check_condition` shows.
    open spec fn holds(&self, check_condition: usize) -> bool {
        arbitrary()
    }

    /// The fragments of the repeated block `get_items`, in order.
    open spec fn items_of(&self, get_items: usize) -> Seq<BuilderView<Self>> {
        arbitrary()
    }

    /// The state of the child `update` after the parent's changes were copied into it.
    open spec fn adapted(&self, update: usize, child: Self, changed: Seq<usize>) -> Self {
        arbitrary()
    }

    /// The child's own dependency ids that the parent's changes touch, or `None` where they
    /// touch none.
    open spec fn passed_on(&self, update: usize, child: Self, changed: Seq<usize>) -> Option<
        Seq<usize>,
    > {
        arbitrary()
    }

    /// The state of the parent after the change of its child `bound_update` was copied into
    /// it.
    open spec fn bound(&self, bound_update: usize, child: Self, changed: Seq<usize>) -> Self {
        arbitrary()
    }

    /// The parent's own dependency ids that the change of its child touches, or `None` where
    /// it touches none.
    open spec fn bound_ids(&self, bound_update: usize, child: Self, changed: Seq<usize>) -> Option<
        Seq<usize>,
    > {
        arbitrary()
    }

    /// Describes the component's view.
    fn render(&self) -> (builder: FragmentBuilder<Self>)
        ensures
            builder@ == self.rendered(),
    ;

    /// Handles an event, which may change the state, and reports the dependency ids that
    /// changed.
    fn handle_event(&mut self, event_id: usize) -> (changed: Option<Vec<usize>>)
        ensures
            *final(self) == old(self).after_event(event_id),
            ids_of(changed) == old(self).changed_by(event_id),
    ;

    /// Produces the text of a text binding.
    fn get_text(&self, get_text: usize) -> (text: String)
        ensures
            text@ == self.text_of(get_text),
    ;

    /// Decides whether a conditional shows.
    fn check_condition(&self, check_condition: usize) -> (shows: bool)
        ensures
            shows == self.holds(check_condition),
    ;

    /// Produces the builders of the fragments of a repeated block.
    fn get_items(&self, get_items: usize) -> (items: Vec<FragmentBuilder<Self>>)
        ensures
            described(items@) == self.items_of(get_items),
    ;

    /// Copies what the child needs of the parent's state into the child, and turns the
    /// parent's changed dependency ids into the child's.
    fn update_component(&self, update: usize, child: &mut Self, changed: &[usize]) -> (passed:
        Option<Vec<usize>>)
        ensures
            *final(child) == self.adapted(update, *old(child), changed@),
            ids_of(passed) == self.passed_on(update, *old(child), changed@),
    ;

    /// Copies what the parent needs of a changed child into the parent, and turns the
    /// child's changed dependency ids into the parent's.
    fn bound_update(&mut self, bound_update: usize, child: &Self, changed: &[usize]) -> (passed:
        Option<Vec<usize>>)
        ensures
            *final(self) == old(self).bound(bound_update, *child, changed@),
            ids_of(passed) == old(self).bound_ids(bound_update, *child, changed@),
    ;
}

} // verus!
