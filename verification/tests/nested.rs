use std::cell::RefCell;

use kinesis::component::Component;
use kinesis::controller::{Controller, Handover};
use kinesis::fragment::builder::FragmentBuilder;
use kinesis::fragment::routing::Routing;
use kinesis::fragment::{Fragment, Location};
use kinesis::host::model::{HostCallback, NodeId};
use kinesis::host::Host;

/// A parent with a count and a child with a copy of it. The parent's dependency id is 0, the
/// child's own is 7; the child also has a text binding registered under 0, which must never
/// be updated on account of the parent's id.
#[derive(Debug)]
enum Pair {
    Parent { count: usize, adapted: RefCell<Vec<Vec<usize>>> },
    Child { copy: usize, produced: RefCell<Vec<usize>> },
}

impl Component for Pair {
    fn render(&self) -> FragmentBuilder<Pair> {
        match self {
            Pair::Parent { .. } => Fragment::build().with_element("div", None).with_component(
                &[0],
                Some(0),
                Pair::Child { copy: 0, produced: RefCell::new(Vec::new()) },
                1,
                0,
                Some(0),
            ),
            Pair::Child { .. } => Fragment::build()
                .with_updatable(&[7], None, 70)
                .with_updatable(&[0], None, 71),
        }
    }

    fn handle_event(&mut self, event_id: usize) -> Option<Vec<usize>> {
        match self {
            Pair::Parent { count, .. } if event_id == 0 => {
                *count += 1;
                Some(vec![0])
            }
            Pair::Child { copy, .. } if event_id == 9 => {
                *copy = 100;
                Some(vec![7])
            }
            _ => None,
        }
    }

    fn bound_update(&mut self, _bound_update: usize, child: &Pair, changed: &[usize]) -> Option<Vec<usize>> {
        match (self, child) {
            (Pair::Parent { count, .. }, Pair::Child { copy, .. }) if changed.contains(&7) => {
                *count = *copy;
                Some(vec![0])
            }
            _ => None,
        }
    }

    fn get_text(&self, get_text: usize) -> String {
        match self {
            Pair::Child { copy, produced } => {
                produced.borrow_mut().push(get_text);
                format!("{}:{}", get_text, copy)
            }
            Pair::Parent { .. } => String::new(),
        }
    }

    fn check_condition(&self, _check_condition: usize) -> bool {
        false
    }

    fn get_items(&self, _get_items: usize) -> Vec<FragmentBuilder<Pair>> {
        Vec::new()
    }

    fn update_component(&self, _update: usize, child: &mut Pair, changed: &[usize]) -> Option<Vec<usize>> {
        match (self, child) {
            (Pair::Parent { count, adapted }, Pair::Child { copy, .. }) => {
                adapted.borrow_mut().push(changed.to_vec());
                if changed.contains(&0) {
                    *copy = *count;
                    Some(vec![7])
                } else {
                    None
                }
            }
            _ => None,
        }
    }
}

fn child_texts(host: &Host, body: NodeId) -> Vec<String> {
    let div = host.children(body)[0];
    host.children(div).iter().map(|node| host.data(*node).unwrap()).collect()
}

#[test]
fn child_is_updated_for_its_own_id_only() {
    let mut host = Host::new();
    let body = host.create_element("body");
    let parent = Pair::Parent { count: 5, adapted: RefCell::new(Vec::new()) };
    let mut controller = Controller::new(&mut host, parent, 0, None).unwrap();
    controller.mount(&mut host, &Location::parent(body)).unwrap();
    // Mounting the child updates it fully, then the parent's full update adapts it.
    assert_eq!(child_texts(&host, body), vec!["70:5", "71:0"]);

    let handled = controller.handle_event(&mut host, 0).unwrap();
    let changed = handled.changed;
    assert_eq!(handled.handover, None);
    assert_eq!(changed, Some(vec![0]));
    // The binding under the child's id 7 follows; the one under the raw id 0 does not.
    assert_eq!(child_texts(&host, body), vec!["70:6", "71:0"]);
    match controller.component() {
        Pair::Parent { adapted, .. } => {
            assert_eq!(*adapted.borrow(), vec![vec![0], vec![0]]);
        }
        _ => unreachable!(),
    }
}

#[test]
fn adapter_that_passes_nothing_leaves_the_child_alone() {
    let mut host = Host::new();
    let body = host.create_element("body");
    let parent = Pair::Parent { count: 1, adapted: RefCell::new(Vec::new()) };
    let mut controller = Controller::new(&mut host, parent, 0, None).unwrap();
    controller.mount(&mut host, &Location::parent(body)).unwrap();
    host.take_ops();
    // No part of the parent is registered under 3, so the adapter is not even asked.
    controller.notify_changed(&mut host, &[3]).unwrap();
    assert_eq!(host.take_ops(), vec![]);
    assert_eq!(child_texts(&host, body), vec!["70:1", "71:0"]);
}

#[test]
fn event_of_the_child_reaches_the_child_and_comes_back_to_the_parent() {
    let mut host = Host::new();
    let body = host.create_element("body");
    let parent = Pair::Parent { count: 5, adapted: RefCell::new(Vec::new()) };
    let mut controller = Controller::new(&mut host, parent, 0, None).unwrap();
    controller.mount(&mut host, &Location::parent(body)).unwrap();

    let routing = controller.dispatch(&mut host, HostCallback { owner: 1, event_id: 9 }).unwrap();
    // The child changed its id 7; the hook turned that into the parent's id 0.
    assert_eq!(routing, Routing::Changed(vec![0]));
    match controller.component() {
        Pair::Parent { count, adapted } => {
            assert_eq!(*count, 100);
            // The update of the parent adapted the child once more.
            assert_eq!(adapted.borrow().last(), Some(&vec![0]));
        }
        _ => unreachable!(),
    }
    assert_eq!(child_texts(&host, body), vec!["70:100", "71:0"]);
}

#[test]
fn event_that_the_child_ignores_is_settled() {
    let mut host = Host::new();
    let body = host.create_element("body");
    let parent = Pair::Parent { count: 5, adapted: RefCell::new(Vec::new()) };
    let mut controller = Controller::new(&mut host, parent, 0, None).unwrap();
    controller.mount(&mut host, &Location::parent(body)).unwrap();
    host.take_ops();
    let routing = controller.dispatch(&mut host, HostCallback { owner: 1, event_id: 3 }).unwrap();
    assert_eq!(routing, Routing::Settled);
    assert_eq!(host.take_ops(), vec![]);
}

#[test]
fn event_without_owner_is_unclaimed() {
    let mut host = Host::new();
    let body = host.create_element("body");
    let parent = Pair::Parent { count: 5, adapted: RefCell::new(Vec::new()) };
    let mut controller = Controller::new(&mut host, parent, 0, None).unwrap();
    controller.mount(&mut host, &Location::parent(body)).unwrap();
    host.take_ops();
    let routing = controller.dispatch(&mut host, HostCallback { owner: 44, event_id: 0 }).unwrap();
    assert_eq!(routing, Routing::Unclaimed);
    assert_eq!(host.take_ops(), vec![]);
}

#[test]
fn event_of_the_root_is_handled_by_the_root() {
    let mut host = Host::new();
    let body = host.create_element("body");
    let parent = Pair::Parent { count: 5, adapted: RefCell::new(Vec::new()) };
    let mut controller = Controller::new(&mut host, parent, 0, None).unwrap();
    controller.mount(&mut host, &Location::parent(body)).unwrap();
    let routing = controller.dispatch(&mut host, HostCallback { owner: 0, event_id: 0 }).unwrap();
    assert_eq!(routing, Routing::Changed(vec![0]));
    assert_eq!(child_texts(&host, body), vec!["70:6", "71:0"]);
}

fn bound_child(host: &mut Host, body: NodeId) -> Controller<Pair> {
    let child = Pair::Child { copy: 3, produced: RefCell::new(Vec::new()) };
    let mut controller = Controller::new(host, child, 1, Some(0)).unwrap();
    controller.mount(host, &Location::parent(body)).unwrap();
    host.take_ops();
    controller
}

fn produced(controller: &Controller<Pair>) -> Vec<usize> {
    match controller.component() {
        Pair::Child { produced, .. } => produced.borrow().clone(),
        _ => unreachable!(),
    }
}

#[test]
fn notify_of_a_bound_controller_hands_the_change_to_the_parent() {
    let mut host = Host::new();
    let body = host.create_element("body");
    let mut controller = bound_child(&mut host, body);
    let before = produced(&controller).len();

    let handover = controller.notify_changed(&mut host, &[7]).unwrap();
    assert_eq!(handover, Some(Handover { hook: 0, changed: vec![7] }));
    // The fragment was updated once, for the binding under 7 alone.
    assert_eq!(produced(&controller)[before..].to_vec(), vec![70]);
    assert_eq!(host.take_ops().len(), 1);
}

#[test]
fn notify_of_a_controller_without_parent_hands_nothing_back() {
    let mut host = Host::new();
    let body = host.create_element("body");
    let child = Pair::Child { copy: 3, produced: RefCell::new(Vec::new()) };
    let mut controller = Controller::new(&mut host, child, 1, None).unwrap();
    controller.mount(&mut host, &Location::parent(body)).unwrap();
    host.take_ops();

    assert_eq!(controller.notify_changed(&mut host, &[7]).unwrap(), None);
    assert_eq!(host.take_ops().len(), 1);

    let mut parent = Pair::Parent { count: 1, adapted: RefCell::new(Vec::new()) };
    assert_eq!(controller.notify_bound(&mut host, &mut parent, &[7]).unwrap(), None);
    assert!(matches!(parent, Pair::Parent { count: 1, .. }));
}

#[test]
fn notify_with_the_parent_at_hand_updates_the_child_then_binds_the_parent() {
    let mut host = Host::new();
    let body = host.create_element("body");
    let mut controller = bound_child(&mut host, body);
    let before = produced(&controller).len();
    let mut parent = Pair::Parent { count: 1, adapted: RefCell::new(Vec::new()) };

    let passed = controller.notify_bound(&mut host, &mut parent, &[7]).unwrap();
    assert_eq!(passed, Some(vec![0]));
    assert!(matches!(parent, Pair::Parent { count: 3, .. }));
    assert_eq!(produced(&controller)[before..].to_vec(), vec![70]);

    // A change that the hook does not care for is handed over all the same, and touches
    // nothing in the parent.
    let passed = controller.notify_bound(&mut host, &mut parent, &[0]).unwrap();
    assert_eq!(passed, None);
    assert!(matches!(parent, Pair::Parent { count: 3, .. }));
}

#[test]
fn event_of_a_bound_controller_reports_what_the_parent_takes_over() {
    let mut host = Host::new();
    let body = host.create_element("body");
    let mut controller = bound_child(&mut host, body);

    let handled = controller.handle_event(&mut host, 9).unwrap();
    assert_eq!(handled.changed, Some(vec![7]));
    assert_eq!(handled.handover, Some(Handover { hook: 0, changed: vec![7] }));

    let handled = controller.handle_event(&mut host, 5).unwrap();
    assert_eq!(handled.changed, None);
    assert_eq!(handled.handover, None);

    let mut parent = Pair::Parent { count: 1, adapted: RefCell::new(Vec::new()) };
    assert_eq!(controller.hand_over(&mut parent, &[7]), Some(vec![0]));
    assert!(matches!(parent, Pair::Parent { count: 100, .. }));
}

#[test]
fn event_of_a_bound_controller_is_taken_over_by_the_parent_at_hand() {
    let mut host = Host::new();
    let body = host.create_element("body");
    let mut controller = bound_child(&mut host, body);
    assert_eq!(controller.bound_update(), Some(0));
    let before = produced(&controller).len();
    let mut parent = Pair::Parent { count: 1, adapted: RefCell::new(Vec::new()) };

    let callback = HostCallback { owner: 1, event_id: 9 };
    let routing = controller.dispatch_bound(&mut host, &mut parent, callback).unwrap();
    // The child's fragment shows the change, once, and the parent has taken it over.
    assert_eq!(produced(&controller)[before..].to_vec(), vec![70]);
    assert_eq!(host.data(host.children(body)[0]).unwrap(), "70:100");
    assert!(matches!(parent, Pair::Parent { count: 100, .. }));
    assert_eq!(routing, Routing::Changed(vec![0]));

    // An event that changes nothing reaches nobody, and an event of somebody else is not
    // claimed.
    let idle = HostCallback { owner: 1, event_id: 5 };
    assert_eq!(controller.dispatch_bound(&mut host, &mut parent, idle).unwrap(), Routing::Settled);
    let stray = HostCallback { owner: 8, event_id: 9 };
    assert_eq!(
        controller.dispatch_bound(&mut host, &mut parent, stray).unwrap(),
        Routing::Unclaimed
    );
    assert_eq!(produced(&controller)[before..].to_vec(), vec![70]);
}

#[test]
fn event_of_a_controller_that_is_bound_to_nobody_ends_with_it() {
    let mut host = Host::new();
    let body = host.create_element("body");
    let child = Pair::Child { copy: 3, produced: RefCell::new(Vec::new()) };
    let mut controller = Controller::new(&mut host, child, 1, None).unwrap();
    controller.mount(&mut host, &Location::parent(body)).unwrap();
    assert_eq!(controller.bound_update(), None);
    let mut parent = Pair::Parent { count: 1, adapted: RefCell::new(Vec::new()) };

    let callback = HostCallback { owner: 1, event_id: 9 };
    let routing = controller.dispatch_bound(&mut host, &mut parent, callback).unwrap();
    assert_eq!(routing, Routing::Settled);
    assert_eq!(host.data(host.children(body)[0]).unwrap(), "70:100");
    assert!(matches!(parent, Pair::Parent { count: 1, .. }));
}

