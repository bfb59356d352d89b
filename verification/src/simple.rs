//! A sample: a counter with two buttons, a block that shows while the count is even, one row
//! for each number below the count, and a child component that shows the count in bold.

use vstd::prelude::*;
use vstd::string::StringExecFns;
use crate::component::Component;
use crate::fragment::builder::{BuilderView, FragmentBuilder, PartKind};
use crate::fragment::node::{Node, NodeSpec};
use crate::fragment::Fragment;
use crate::util::decimal::{decimal, to_decimal};

verus! {

/// The dependency id of the count, in both components.
pub const COUNT: usize = 0;

/// The event id of the button that decrements the count.
pub const DECREMENT: usize = 0;

/// The event id of the button that increments the count.
pub const INCREMENT: usize = 1;

/// The event id of the child's button that clears its count.
pub const CLEAR: usize = 0;

/// The token of the child's controller.
pub const BOLD: usize = 1;

/// The child component: shows a number in bold, with a button that sets it to zero.
pub struct BoldCount(pub usize);

/// The parent component: a count that its buttons change.
pub struct Simple {
    pub count: usize,
}

/// The components of the sample, as one type.
pub enum Sample {
    Simple(Simple),
    BoldCount(BoldCount),
}

/// A static element.
pub open spec fn element(tag: Seq<char>) -> NodeSpec {
    NodeSpec { element: true, data: tag, events: Seq::empty() }
}

/// A static text node.
pub open spec fn text(content: Seq<char>) -> NodeSpec {
    NodeSpec { element: false, data: content, events: Seq::empty() }
}

/// A button that reports `event_id` when it is clicked.
pub open spec fn button(event_id: usize) -> NodeSpec {
    NodeSpec { element: true, data: "button"@, events: seq![("click"@, event_id)] }
}

/// The block that shows while the count is even.
pub open spec fn showing() -> BuilderView<Sample> {
    BuilderView::empty().with_node(element("p"@), None).with_node(text("showing!"@), Some(0))
}

/// The row for the number `value`.
pub open spec fn row(value: nat) -> BuilderView<Sample> {
    BuilderView::empty().with_node(element("p"@), None).with_node(
        text("counting "@ + decimal(value)),
        Some(0),
    )
}

/// The paragraph with the count, and the two buttons.
pub open spec fn simple_top() -> BuilderView<Sample> {
    BuilderView::empty().with_node(element("p"@), None).with_node(
        text("some content: "@),
        Some(0),
    ).with_part(seq![COUNT], Some(0), PartKind::Updatable { get_text: 0 }).with_node(
        button(DECREMENT),
        None,
    ).with_node(text("decrement"@), Some(2)).with_node(button(INCREMENT), None).with_node(
        text("increment"@),
        Some(4),
    )
}

/// The view of the parent.
pub open spec fn simple_view() -> BuilderView<Sample> {
    simple_top().with_part(
        seq![COUNT],
        None,
        PartKind::Conditional { check_condition: 0, fragment: Box::new(showing()) },
    ).with_part(seq![COUNT], None, PartKind::Each { get_items: 0 }).with_part(
        seq![COUNT],
        None,
        PartKind::Component {
            component: Sample::BoldCount(BoldCount(0)),
            register_event: BOLD,
            update: 0,
            bound_update: Some(0),
        },
    )
}

/// The view of the child.
pub open spec fn bold_view() -> BuilderView<Sample> {
    BuilderView::empty().with_node(element("p"@), None).with_node(
        text("Bolded this text: "@),
        Some(0),
    ).with_node(element("b"@), Some(0)).with_part(
        seq![COUNT],
        Some(2),
        PartKind::Updatable { get_text: 0 },
    ).with_node(button(CLEAR), None).with_node(text("Clear"@), Some(3))
}

fn make_button(event_id: usize) -> (node: Node)
    ensures
        node@ == button(event_id),
{
    let node = Node::element("button").with_event("click", event_id);
    assert(node@.events =~= seq![("click"@, event_id)]);
    node
}

fn make_row(value: usize) -> (builder: FragmentBuilder<Sample>)
    ensures
        builder@ == row(value as nat),
{
    let mut content = String::from_str("counting ");
    content.append(to_decimal(value).as_str());
    Fragment::build().with_element("p", None).with_text(content.as_str(), Some(0))
}

fn contains(list: &[usize], id: usize) -> (b: bool)
    ensures
        b == list@.contains(id),
{
    let mut i: usize = 0;
    while i < list.len()
        invariant
            i <= list@.len(),
            forall|j: int| 0 <= j < i ==> list@[j] != id,
        decreases list@.len() - i,
    {
        if list[i] == id {
            return true;
        }
        i += 1;
    }
    false
}

impl Simple {
    /// The parent with the given count.
    pub fn new(count: usize) -> (sample: Sample)
        ensures
            sample == Sample::Simple(Simple { count }),
    {
        Sample::Simple(Simple { count })
    }
}

impl BoldCount {
    /// The child with the given number.
    pub fn new(value: usize) -> (sample: Sample)
        ensures
            sample == Sample::BoldCount(BoldCount(value)),
    {
        Sample::BoldCount(BoldCount(value))
    }
}

impl Sample {
    /// The count of the parent, or the number of the child.
    pub fn count(&self) -> (count: usize)
        ensures
            count == self.spec_count(),
    {
        match self {
            Sample::Simple(simple) => simple.count,
            Sample::BoldCount(bold) => bold.0,
        }
    }

    pub open spec fn spec_count(&self) -> usize {
        match self {
            Sample::Simple(simple) => simple.count,
            Sample::BoldCount(bold) => bold.0,
        }
    }

    /// Sets the count of the parent, or the number of the child, from outside.
    pub fn set_count(&mut self, count: usize)
        ensures
            *final(self) == (match *old(self) {
                Sample::Simple(_) => Sample::Simple(Simple { count }),
                Sample::BoldCount(_) => Sample::BoldCount(BoldCount(count)),
            }),
    {
        match self {
            Sample::Simple(simple) => {
                simple.count = count;
            },
            Sample::BoldCount(bold) => {
                bold.0 = count;
            },
        }
    }
}

impl Component for Sample {
    open spec fn rendered(&self) -> BuilderView<Sample> {
        match self {
            Sample::Simple(_) => simple_view(),
            Sample::BoldCount(_) => bold_view(),
        }
    }

    /// The buttons of the parent change the count by one, as far as it can go; the button of
    /// the child sets its number to zero.
    open spec fn after_event(&self, event_id: usize) -> Sample {
        match self {
            Sample::Simple(simple) => if event_id == DECREMENT && simple.count > 0 {
                Sample::Simple(Simple { count: (simple.count - 1) as usize })
            } else if event_id == INCREMENT && simple.count < usize::MAX {
                Sample::Simple(Simple { count: (simple.count + 1) as usize })
            } else {
                *self
            },
            Sample::BoldCount(bold) => if event_id == CLEAR {
                Sample::BoldCount(BoldCount(0))
            } else {
                *self
            },
        }
    }

    open spec fn changed_by(&self, event_id: usize) -> Option<Seq<usize>> {
        match self {
            Sample::Simple(simple) => if (event_id == DECREMENT && simple.count > 0) || (event_id
                == INCREMENT && simple.count < usize::MAX) {
                Some(seq![COUNT])
            } else {
                None
            },
            Sample::BoldCount(_) => if event_id == CLEAR {
                Some(seq![COUNT])
            } else {
                None
            },
        }
    }

    open spec fn text_of(&self, get_text: usize) -> Seq<char> {
        if get_text == 0 {
            decimal(self.spec_count() as nat)
        } else {
            Seq::empty()
        }
    }

    open spec fn holds(&self, check_condition: usize) -> bool {
        match self {
            Sample::Simple(simple) => check_condition == 0 && simple.count % 2 == 0,
            Sample::BoldCount(_) => false,
        }
    }

    open spec fn items_of(&self, get_items: usize) -> Seq<BuilderView<Sample>> {
        match self {
            Sample::Simple(simple) => if get_items == 0 {
                Seq::new(simple.count as nat, |value: int| row(value as nat))
            } else {
                Seq::empty()
            },
            Sample::BoldCount(_) => Seq::empty(),
        }
    }

    /// The child follows the count of the parent.
    open spec fn adapted(&self, update: usize, child: Sample, changed: Seq<usize>) -> Sample {
        match (self, child) {
            (Sample::Simple(simple), Sample::BoldCount(_)) => if update == 0 && changed.contains(
                COUNT,
            ) {
                Sample::BoldCount(BoldCount(simple.count))
            } else {
                child
            },
            _ => child,
        }
    }

    open spec fn passed_on(&self, update: usize, child: Sample, changed: Seq<usize>) -> Option<
        Seq<usize>,
    > {
        match (self, child) {
            (Sample::Simple(_), Sample::BoldCount(_)) => if update == 0 && changed.contains(COUNT) {
                Some(seq![COUNT])
            } else {
                None
            },
            _ => None,
        }
    }

    /// The parent follows its child where the child changes by itself.
    open spec fn bound(&self, bound_update: usize, child: Sample, changed: Seq<usize>) -> Sample {
        match (self, child) {
            (Sample::Simple(_), Sample::BoldCount(bold)) => if bound_update == 0
                && changed.contains(COUNT) {
                Sample::Simple(Simple { count: bold.0 })
            } else {
                *self
            },
            _ => *self,
        }
    }

    open spec fn bound_ids(&self, bound_update: usize, child: Sample, changed: Seq<usize>)
        -> Option<Seq<usize>> {
        match (self, child) {
            (Sample::Simple(_), Sample::BoldCount(_)) => if bound_update == 0 && changed.contains(
                COUNT,
            ) {
                Some(seq![COUNT])
            } else {
                None
            },
            _ => None,
        }
    }

    fn render(&self) -> (builder: FragmentBuilder<Sample>) {
        match self {
            Sample::Simple(_) => {
                let block = Fragment::build().with_element("p", None).with_text(
                    "showing!",
                    Some(0),
                );
                assert(block@ == showing());
                let dependencies: [usize; 1] = [COUNT];
                assert(dependencies@ =~= seq![COUNT]);
                let top = Fragment::build().with_element("p", None).with_text(
                    "some content: ",
                    Some(0),
                ).with_updatable(&dependencies, Some(0), 0).with_node(
                    make_button(DECREMENT),
                    None,
                ).with_text("decrement", Some(2)).with_node(make_button(INCREMENT), None).with_text(
                    "increment",
                    Some(4),
                );
                assert(top@ == simple_top());
                let with_block = top.with_conditional(&dependencies, None, 0, block);
                let with_rows = with_block.with_each(&dependencies, None, 0);
                let all = with_rows.with_component(
                    &dependencies,
                    None,
                    BoldCount::new(0),
                    BOLD,
                    0,
                    Some(0),
                );
                all
            },
            Sample::BoldCount(_) => {
                let dependencies: [usize; 1] = [COUNT];
                assert(dependencies@ =~= seq![COUNT]);
                Fragment::build().with_element("p", None).with_text(
                    "Bolded this text: ",
                    Some(0),
                ).with_element("b", Some(0)).with_updatable(&dependencies, Some(2), 0).with_node(
                    make_button(CLEAR),
                    None,
                ).with_text("Clear", Some(3))
            },
        }
    }

    fn handle_event(&mut self, event_id: usize) -> (changed: Option<Vec<usize>>) {
        match self {
            Sample::Simple(simple) => {
                if event_id == DECREMENT && simple.count > 0 {
                    simple.count = simple.count - 1;
                    Some(vec![COUNT])
                } else if event_id == INCREMENT && simple.count < usize::MAX {
                    simple.count = simple.count + 1;
                    Some(vec![COUNT])
                } else {
                    None
                }
            },
            Sample::BoldCount(bold) => {
                if event_id == CLEAR {
                    bold.0 = 0;
                    Some(vec![COUNT])
                } else {
                    None
                }
            },
        }
    }

    fn get_text(&self, get_text: usize) -> (text: String) {
        if get_text == 0 {
            to_decimal(self.count())
        } else {
            String::new()
        }
    }

    fn check_condition(&self, check_condition: usize) -> (shows: bool) {
        match self {
            Sample::Simple(simple) => check_condition == 0 && simple.count % 2 == 0,
            Sample::BoldCount(_) => false,
        }
    }

    fn get_items(&self, get_items: usize) -> (items: Vec<FragmentBuilder<Sample>>) {
        let mut items: Vec<FragmentBuilder<Sample>> = Vec::new();
        match self {
            Sample::Simple(simple) => {
                if get_items == 0 {
                    let mut value: usize = 0;
                    while value < simple.count
                        invariant
                            value <= simple.count,
                            items@.len() == value,
                            forall|i: int| 0 <= i < value ==> (#[trigger] items@[i])@ == row(i as nat),
                        decreases simple.count - value,
                    {
                        items.push(make_row(value));
                        value += 1;
                    }
                }
            },
            Sample::BoldCount(_) => {},
        }
        assert(crate::component::described(items@) =~= self.items_of(get_items));
        items
    }

    fn update_component(&self, update: usize, child: &mut Sample, changed: &[usize]) -> (passed:
        Option<Vec<usize>>) {
        match (self, &mut *child) {
            (Sample::Simple(simple), Sample::BoldCount(bold)) => {
                if update == 0 && contains(changed, COUNT) {
                    bold.0 = simple.count;
                    Some(vec![COUNT])
                } else {
                    None
                }
            },
            _ => None,
        }
    }

    fn bound_update(&mut self, bound_update: usize, child: &Sample, changed: &[usize]) -> (passed:
        Option<Vec<usize>>) {
        match (&mut *self, child) {
            (Sample::Simple(simple), Sample::BoldCount(bold)) => {
                if bound_update == 0 && contains(changed, COUNT) {
                    simple.count = bold.0;
                    Some(vec![COUNT])
                } else {
                    None
                }
            },
            _ => None,
        }
    }
}

} // verus!
