use std::cell::RefCell;

use kinesis::component::Component;
use kinesis::fragment::builder::FragmentBuilder;
use kinesis::fragment::dynamic::{Conditional, DynamicPart};
use kinesis::fragment::{EventRegistry, Fragment, Location, Node};
use kinesis::host::model::{Failure, HostOp, NodeId};
use kinesis::host::Host;

/// A component that records what it is asked for.
#[derive(Default)]
struct Probe {
    /// What the text bindings show.
    label: String,
    /// Whether the conditionals show.
    shows: bool,
    /// The texts of the rows of the repeated blocks.
    rows: Vec<String>,
    /// The producers that were asked for a text, in order.
    texts: RefCell<Vec<usize>>,
    /// The producers that were asked for a condition, in order.
    conditions: RefCell<Vec<usize>>,
    /// The producers that were asked for items, in order.
    items: RefCell<Vec<usize>>,
}

impl Probe {
    fn asked(&self) -> Vec<usize> {
        self.texts.borrow().clone()
    }

    fn forget(&self) {
        self.texts.borrow_mut().clear();
        self.conditions.borrow_mut().clear();
        self.items.borrow_mut().clear();
    }
}

impl Component for Probe {
    fn render(&self) -> FragmentBuilder<Probe> {
        Fragment::build()
    }

    fn handle_event(&mut self, _event_id: usize) -> Option<Vec<usize>> {
        None
    }

    fn get_text(&self, get_text: usize) -> String {
        self.texts.borrow_mut().push(get_text);
        format!("{}{}", self.label, get_text)
    }

    fn check_condition(&self, check_condition: usize) -> bool {
        self.conditions.borrow_mut().push(check_condition);
        self.shows
    }

    fn get_items(&self, get_items: usize) -> Vec<FragmentBuilder<Probe>> {
        self.items.borrow_mut().push(get_items);
        if get_items == 7 {
            // Rows with a static node, a text binding and a conditional at the top.
            return self
                .rows
                .iter()
                .map(|row| {
                    Fragment::build()
                        .with_element(row, None)
                        .with_updatable(&[1], None, 30)
                        .with_conditional(&[1], None, 5, Fragment::build().with_element("i", None))
                })
                .collect();
        }
        self.rows
            .iter()
            .map(|row| Fragment::build().with_element("li", None).with_text(row, Some(0)))
            .collect()
    }

    fn update_component(&self, _update: usize, _child: &mut Probe, _changed: &[usize]) -> Option<Vec<usize>> {
        None
    }

    fn bound_update(&mut self, _bound_update: usize, _child: &Probe, _changed: &[usize]) -> Option<Vec<usize>> {
        None
    }
}

struct Stage {
    host: Host,
    registry: EventRegistry,
    body: NodeId,
}

fn stage() -> Stage {
    let mut host = Host::new();
    let body = host.create_element("body");
    Stage { host, registry: EventRegistry::new(0), body }
}

fn built(stage: &mut Stage, builder: FragmentBuilder<Probe>) -> Fragment<Probe> {
    builder.build(&mut stage.host, &mut stage.registry).unwrap()
}

fn three_bindings() -> FragmentBuilder<Probe> {
    Fragment::build()
        .with_updatable(&[1], None, 10)
        .with_updatable(&[2], None, 20)
        .with_updatable(&[1, 2], None, 30)
}

fn data(host: &Host, nodes: &[NodeId]) -> Vec<String> {
    nodes.iter().map(|node| host.data(*node).unwrap()).collect()
}

#[test]
fn update_reaches_exactly_the_parts_registered_under_a_changed_id() {
    let mut stage = stage();
    let mut fragment = built(&mut stage, three_bindings());
    let probe = Probe { label: "t".to_string(), ..Probe::default() };
    fragment.mount(&mut stage.host, &Location::parent(stage.body)).unwrap();

    fragment.update(&mut stage.host, &mut stage.registry, &probe, &[1]).unwrap();
    assert_eq!(probe.asked(), vec![10, 30]);
    assert_eq!(data(&stage.host, &stage.host.children(stage.body)), vec!["t10", "", "t30"]);

    probe.forget();
    fragment.update(&mut stage.host, &mut stage.registry, &probe, &[2]).unwrap();
    assert_eq!(probe.asked(), vec![20, 30]);

    probe.forget();
    fragment.update(&mut stage.host, &mut stage.registry, &probe, &[7]).unwrap();
    assert_eq!(probe.asked(), Vec::<usize>::new());
}

#[test]
fn update_reaches_each_part_once_and_in_the_order_of_registration() {
    let mut stage = stage();
    let mut fragment = built(&mut stage, three_bindings());
    let probe = Probe::default();
    fragment.mount(&mut stage.host, &Location::parent(stage.body)).unwrap();
    fragment.update(&mut stage.host, &mut stage.registry, &probe, &[2, 1, 2, 1]).unwrap();
    assert_eq!(probe.asked(), vec![10, 20, 30]);
}

#[test]
fn a_part_registered_twice_under_one_id_is_updated_once() {
    let mut stage = stage();
    let builder = Fragment::build().with_updatable(&[4, 4], None, 1);
    let mut fragment = built(&mut stage, builder);
    let probe = Probe::default();
    fragment.mount(&mut stage.host, &Location::parent(stage.body)).unwrap();
    fragment.update(&mut stage.host, &mut stage.registry, &probe, &[4]).unwrap();
    assert_eq!(probe.asked(), vec![1]);
    assert_eq!(fragment.known_dependencies(), vec![4]);
}

#[test]
fn affected_lists_the_selected_parts_in_increasing_order() {
    let mut stage = stage();
    let fragment = built(&mut stage, three_bindings());
    assert_eq!(fragment.affected(&[1]), vec![0, 2]);
    assert_eq!(fragment.affected(&[2]), vec![1, 2]);
    assert_eq!(fragment.affected(&[2, 1]), vec![0, 1, 2]);
    assert_eq!(fragment.affected(&[9]), Vec::<usize>::new());
    assert_eq!(fragment.affected(&[]), Vec::<usize>::new());
    assert_eq!(fragment.part_count(), 3);
    assert_eq!(fragment.known_dependencies(), vec![1, 2]);
}

#[test]
fn update_of_a_fragment_that_is_not_mounted_does_nothing() {
    let mut stage = stage();
    let mut fragment = built(&mut stage, three_bindings());
    let probe = Probe::default();
    stage.host.take_ops();
    fragment.update(&mut stage.host, &mut stage.registry, &probe, &[1, 2]).unwrap();
    assert_eq!(probe.asked(), Vec::<usize>::new());
    assert_eq!(stage.host.take_ops(), vec![]);
}

#[test]
fn full_update_reaches_every_registered_part() {
    let mut stage = stage();
    let builder = three_bindings().with_updatable(&[], None, 40);
    let mut fragment = built(&mut stage, builder);
    let probe = Probe::default();
    fragment.mount(&mut stage.host, &Location::parent(stage.body)).unwrap();
    fragment.full_update(&mut stage.host, &mut stage.registry, &probe).unwrap();
    // The part without dependencies is registered under no id and is never reached.
    assert_eq!(probe.asked(), vec![10, 20, 30]);
}

#[test]
fn mount_puts_nodes_where_their_index_says() {
    let mut stage = stage();
    let builder = Fragment::build()
        .with_element("p", None)
        .with_text("inside", Some(0))
        .with_element("div", None)
        .with_updatable(&[1], Some(2), 5)
        .with_updatable(&[1], None, 6);
    let mut fragment = built(&mut stage, builder);
    assert!(!fragment.is_mounted());
    fragment.mount(&mut stage.host, &Location::parent(stage.body)).unwrap();
    assert!(fragment.is_mounted());
    let p = fragment.static_node(0).unwrap();
    let inside = fragment.static_node(1).unwrap();
    let div = fragment.static_node(2).unwrap();
    assert_eq!(fragment.static_node(3), None);
    let top = stage.host.children(stage.body);
    assert_eq!(top.len(), 3);
    assert_eq!(&top[..2], &[p, div]);
    assert_eq!(stage.host.children(p), vec![inside]);
    assert_eq!(stage.host.children(div).len(), 1);
    // Mounting updates nothing.
    assert_eq!(stage.host.data(top[2]), Some(String::new()));
}

#[test]
fn mount_then_detach_leaves_the_child_list_as_it_was() {
    let mut stage = stage();
    let first = stage.host.create_text_node("first");
    let last = stage.host.create_text_node("last");
    stage.host.insert_before(stage.body, first, None).unwrap();
    stage.host.insert_before(stage.body, last, None).unwrap();
    let builder = Fragment::build()
        .with_element("p", None)
        .with_text("inside", Some(0))
        .with_updatable(&[1], None, 5)
        .with_conditional(&[1], None, 6, Fragment::build().with_text("shown", None))
        .with_each(&[1], Some(0), 7);
    let mut fragment = built(&mut stage, builder);
    let before = stage.host.children(stage.body);

    let at = Location::anchor(&stage.host, last).unwrap();
    fragment.mount(&mut stage.host, &at).unwrap();
    let mounted = stage.host.children(stage.body);
    assert_eq!(mounted.len(), 5);
    assert_eq!(mounted[0], first);
    assert_eq!(mounted[4], last);

    fragment.detach(&mut stage.host, true).unwrap();
    assert!(!fragment.is_mounted());
    assert_eq!(stage.host.children(stage.body), before);
    assert_eq!(before, vec![first, last]);
}

#[test]
fn mount_of_a_mounted_fragment_fails_and_changes_nothing() {
    let mut stage = stage();
    let mut fragment = built(&mut stage, three_bindings());
    fragment.mount(&mut stage.host, &Location::parent(stage.body)).unwrap();
    let before = stage.host.children(stage.body);
    stage.host.take_ops();
    assert_eq!(
        fragment.mount(&mut stage.host, &Location::parent(stage.body)),
        Err(Failure::AlreadyMounted)
    );
    assert_eq!(stage.host.take_ops(), vec![]);
    assert_eq!(stage.host.children(stage.body), before);
    assert!(fragment.is_mounted());
}

#[test]
fn detach_of_a_fragment_that_is_not_mounted_does_nothing() {
    let mut stage = stage();
    let mut fragment = built(&mut stage, three_bindings());
    stage.host.take_ops();
    assert_eq!(fragment.detach(&mut stage.host, true), Ok(()));
    assert_eq!(stage.host.take_ops(), vec![]);
}

#[test]
fn detach_below_the_top_level_leaves_the_nodes_of_parts_in_place() {
    let mut stage = stage();
    let builder = Fragment::build().with_element("p", None).with_updatable(&[1], Some(0), 5);
    let mut fragment = built(&mut stage, builder);
    fragment.mount(&mut stage.host, &Location::parent(stage.body)).unwrap();
    let p = fragment.static_node(0).unwrap();
    let text = stage.host.children(p)[0];
    fragment.detach(&mut stage.host, false).unwrap();
    // The static node at the top is removed; the text node leaves the tree with it.
    assert_eq!(stage.host.children(stage.body), Vec::<NodeId>::new());
    assert_eq!(stage.host.get_parent(text), Some(p));
}

#[test]
fn build_with_a_bad_parent_index_fails_and_creates_nothing() {
    let mut stage = stage();
    let forward = Fragment::<Probe>::build().with_text("a", Some(1)).with_element("p", None);
    assert!(!forward.is_well_formed());
    assert_eq!(
        forward.build(&mut stage.host, &mut stage.registry).err(),
        Some(Failure::BadParentIndex)
    );
    let own = Fragment::<Probe>::build().with_element("p", Some(0));
    assert_eq!(own.build(&mut stage.host, &mut stage.registry).err(), Some(Failure::BadParentIndex));
    let part = Fragment::<Probe>::build().with_element("p", None).with_updatable(&[1], Some(1), 0);
    assert_eq!(part.build(&mut stage.host, &mut stage.registry).err(), Some(Failure::BadParentIndex));
    assert_eq!(stage.host.len(), 1);
    let good = Fragment::<Probe>::build().with_element("p", None).with_text("a", Some(0));
    assert!(good.is_well_formed());
}

#[test]
fn build_creates_nodes_in_the_order_of_the_builder_and_binds_events() {
    let mut stage = stage();
    let builder = Fragment::<Probe>::build()
        .with_node(Node::element("button").with_event("click", 3).with_event("focus", 4), None)
        .with_text("press", Some(0))
        .with_updatable(&[1], None, 0);
    stage.host.take_ops();
    let fragment = built(&mut stage, builder);
    let button = fragment.static_node(0).unwrap();
    let text = fragment.static_node(1).unwrap();
    assert_eq!((button, text), (1, 2));
    assert_eq!(
        stage.host.take_ops(),
        vec![
            HostOp::Created { node: 1 },
            HostOp::Listening { node: 1, listener: 0 },
            HostOp::Listening { node: 1, listener: 1 },
            HostOp::Created { node: 2 },
            HostOp::Created { node: 3 },
        ]
    );
    let (name, callback) = stage.host.listener(button, 1).unwrap();
    assert_eq!(name, "focus");
    assert_eq!((callback.owner, callback.event_id), (0, 4));
    assert!(stage.registry.is_cached(3) && stage.registry.is_cached(4));
    assert_eq!(stage.registry.len(), 2);
    assert_eq!(stage.host.data(button), Some("button".to_string()));
    assert_eq!(stage.host.data(text), Some("press".to_string()));
    assert!(stage.host.is_element(button) && !stage.host.is_element(text));
}

#[test]
fn mount_into_a_text_node_fails() {
    let mut stage = stage();
    let builder = Fragment::<Probe>::build().with_text("a", None).with_text("b", Some(0));
    let mut fragment = built(&mut stage, builder);
    assert_eq!(
        fragment.mount(&mut stage.host, &Location::parent(stage.body)),
        Err(Failure::NotAnElement)
    );
    assert!(!fragment.is_mounted());
}

fn with_each() -> FragmentBuilder<Probe> {
    Fragment::build().with_element("ul", None).with_each(&[1], Some(0), 9)
}

fn row_texts(host: &Host, list: NodeId) -> Vec<String> {
    host.children(list)
        .iter()
        .filter(|node| host.is_element(**node))
        .map(|row| host.data(host.children(*row)[0]).unwrap())
        .collect()
}

#[test]
fn each_replaces_all_its_fragments_on_every_update() {
    let mut stage = stage();
    let mut fragment = built(&mut stage, with_each());
    let mut probe = Probe { rows: vec!["a".into(), "b".into(), "c".into()], ..Probe::default() };
    fragment.mount(&mut stage.host, &Location::parent(stage.body)).unwrap();
    fragment.full_update(&mut stage.host, &mut stage.registry, &probe).unwrap();
    let list = fragment.static_node(0).unwrap();
    assert_eq!(row_texts(&stage.host, list), vec!["a", "b", "c"]);
    let old_rows: Vec<NodeId> =
        stage.host.children(list).into_iter().filter(|node| stage.host.is_element(*node)).collect();
    let nodes_before = stage.host.len();

    probe.rows = vec!["x".into(), "y".into()];
    stage.host.take_ops();
    fragment.update(&mut stage.host, &mut stage.registry, &probe, &[1]).unwrap();
    assert_eq!(row_texts(&stage.host, list), vec!["x", "y"]);
    let new_rows: Vec<NodeId> =
        stage.host.children(list).into_iter().filter(|node| stage.host.is_element(*node)).collect();
    assert_eq!(new_rows.len(), 2);
    // Every old row was removed, once.
    let ops = stage.host.take_ops();
    for row in &old_rows {
        assert_eq!(stage.host.get_parent(*row), None);
        let removals = ops
            .iter()
            .filter(|op| **op == HostOp::Removed { parent: list, node: *row })
            .count();
        assert_eq!(removals, 1);
    }
    // No row is reused: the new rows are new nodes.
    for row in &new_rows {
        assert!(*row >= nodes_before);
        assert!(!old_rows.contains(row));
    }
    // The anchor stays behind the rows.
    let children = stage.host.children(list);
    assert!(!stage.host.is_element(children[children.len() - 1]));
}

#[test]
fn each_with_the_same_items_still_rebuilds() {
    let mut stage = stage();
    let mut fragment = built(&mut stage, with_each());
    let probe = Probe { rows: vec!["a".into()], ..Probe::default() };
    fragment.mount(&mut stage.host, &Location::parent(stage.body)).unwrap();
    fragment.full_update(&mut stage.host, &mut stage.registry, &probe).unwrap();
    let list = fragment.static_node(0).unwrap();
    let first = stage.host.children(list)[0];
    fragment.update(&mut stage.host, &mut stage.registry, &probe, &[1]).unwrap();
    let second = stage.host.children(list)[0];
    assert_ne!(first, second);
    assert_eq!(row_texts(&stage.host, list), vec!["a"]);
    assert_eq!(*probe.items.borrow(), vec![9, 9]);
}

#[test]
fn each_detach_removes_rows_and_anchor() {
    let mut stage = stage();
    let builder = Fragment::build().with_each(&[1], None, 9);
    let mut fragment = built(&mut stage, builder);
    let probe = Probe { rows: vec!["a".into(), "b".into()], ..Probe::default() };
    fragment.mount(&mut stage.host, &Location::parent(stage.body)).unwrap();
    fragment.full_update(&mut stage.host, &mut stage.registry, &probe).unwrap();
    assert_eq!(stage.host.children(stage.body).len(), 3);
    fragment.detach(&mut stage.host, true).unwrap();
    assert_eq!(stage.host.children(stage.body), Vec::<NodeId>::new());
}

fn with_conditional() -> FragmentBuilder<Probe> {
    Fragment::build().with_conditional(
        &[1],
        None,
        8,
        Fragment::build().with_element("p", None).with_updatable(&[1], Some(0), 80),
    )
}

fn inserts(ops: &[HostOp]) -> usize {
    ops.iter().filter(|op| matches!(op, HostOp::Inserted { .. })).count()
}

fn removals(ops: &[HostOp]) -> usize {
    ops.iter().filter(|op| matches!(op, HostOp::Removed { .. })).count()
}

#[test]
fn conditional_mounts_and_detaches_on_transitions_only() {
    let mut stage = stage();
    let mut fragment = built(&mut stage, with_conditional());
    let mut probe = Probe { shows: false, label: "v".to_string(), ..Probe::default() };
    fragment.mount(&mut stage.host, &Location::parent(stage.body)).unwrap();
    stage.host.take_ops();

    // Hidden and staying hidden: nothing happens.
    fragment.update(&mut stage.host, &mut stage.registry, &probe, &[1]).unwrap();
    assert_eq!(stage.host.take_ops(), vec![]);
    assert_eq!(stage.host.children(stage.body).len(), 1);

    // Hidden to shown: mounted in front of the anchor and fully updated.
    probe.shows = true;
    fragment.update(&mut stage.host, &mut stage.registry, &probe, &[1]).unwrap();
    let ops = stage.host.take_ops();
    assert_eq!((inserts(&ops), removals(&ops)), (2, 0));
    let children = stage.host.children(stage.body);
    assert_eq!(children.len(), 2);
    assert!(stage.host.is_element(children[0]) && !stage.host.is_element(children[1]));
    let shown = stage.host.children(children[0])[0];
    assert_eq!(stage.host.data(shown), Some("v80".to_string()));

    // Shown and staying shown: the update is passed on, nothing is mounted or detached.
    probe.label = "w".to_string();
    for _ in 0..3 {
        fragment.update(&mut stage.host, &mut stage.registry, &probe, &[1]).unwrap();
        let ops = stage.host.take_ops();
        assert_eq!((inserts(&ops), removals(&ops)), (0, 0));
        assert_eq!(ops, vec![HostOp::TextSet { node: shown }]);
    }
    assert_eq!(stage.host.data(shown), Some("w80".to_string()));

    // Shown to hidden: detached once, at the top level: the paragraph leaves the body, and
    // the text binding takes its node out of the paragraph.
    probe.shows = false;
    fragment.update(&mut stage.host, &mut stage.registry, &probe, &[1]).unwrap();
    let ops = stage.host.take_ops();
    assert_eq!((inserts(&ops), removals(&ops)), (0, 2));
    assert_eq!(
        ops,
        vec![
            HostOp::Removed { parent: stage.body, node: children[0] },
            HostOp::Removed { parent: children[0], node: shown },
        ]
    );
    assert_eq!(stage.host.children(stage.body).len(), 1);
    fragment.update(&mut stage.host, &mut stage.registry, &probe, &[1]).unwrap();
    assert_eq!(stage.host.take_ops(), vec![]);
}

#[test]
fn conditional_whose_anchor_left_the_tree_fails() {
    let mut stage = stage();
    let mut fragment = built(&mut stage, with_conditional());
    let probe = Probe { shows: true, ..Probe::default() };
    fragment.mount(&mut stage.host, &Location::parent(stage.body)).unwrap();
    let anchor = stage.host.children(stage.body)[0];
    stage.host.remove_child(stage.body, anchor).unwrap();
    assert_eq!(
        fragment.update(&mut stage.host, &mut stage.registry, &probe, &[1]),
        Err(Failure::Detached)
    );
    assert_eq!(Location::anchor(&stage.host, anchor), Err(Failure::Detached));
    assert_eq!(fragment.detach(&mut stage.host, true), Err(Failure::Detached));
}

#[test]
fn building_deeper_than_allowed_fails() {
    let mut stage = stage();
    assert_eq!(
        with_conditional().build_within(&mut stage.host, &mut stage.registry, 0).err(),
        Some(Failure::TooDeep)
    );
    assert!(with_conditional().build_within(&mut stage.host, &mut stage.registry, 1).is_ok());
    // A repeated block at the last level can be built, but not filled.
    let mut list = with_each().build_within(&mut stage.host, &mut stage.registry, 0).unwrap();
    let probe = Probe { rows: vec!["a".into()], ..Probe::default() };
    list.mount(&mut stage.host, &Location::parent(stage.body)).unwrap();
    assert_eq!(
        list.full_update(&mut stage.host, &mut stage.registry, &probe),
        Err(Failure::TooDeep)
    );
    let empty = Probe::default();
    assert_eq!(list.full_update(&mut stage.host, &mut stage.registry, &empty), Ok(()));
}

#[test]
fn locations() {
    let mut stage = stage();
    let child = stage.host.create_text_node("c");
    stage.host.insert_before(stage.body, child, None).unwrap();
    assert_eq!(Location::parent(stage.body), Location { parent: stage.body, anchor: None });
    assert_eq!(
        Location::anchored_parent(stage.body, Some(child)),
        Location { parent: stage.body, anchor: Some(child) }
    );
    assert_eq!(
        Location::anchor(&stage.host, child),
        Ok(Location { parent: stage.body, anchor: Some(child) })
    );
    let node = stage.host.create_text_node("n");
    Location::anchor(&stage.host, child).unwrap().mount(&mut stage.host, node).unwrap();
    assert_eq!(stage.host.children(stage.body), vec![node, child]);
    let other = stage.host.create_text_node("o");
    Location::parent(stage.body).mount(&mut stage.host, other).unwrap();
    assert_eq!(stage.host.children(stage.body), vec![node, child, other]);
}

#[test]
fn update_leaves_the_nodes_of_a_part_that_is_passed_over_where_they_are() {
    let mut stage = stage();
    let builder = Fragment::build()
        .with_each(&[1], None, 8)
        .with_element("hr", None)
        .with_each(&[2], None, 9)
        .with_updatable(&[2], None, 20);
    let mut fragment = built(&mut stage, builder);
    let mut probe =
        Probe { label: "t".into(), rows: vec!["a".into(), "b".into()], ..Probe::default() };
    fragment.mount(&mut stage.host, &Location::parent(stage.body)).unwrap();
    fragment.full_update(&mut stage.host, &mut stage.registry, &probe).unwrap();
    let before = stage.host.children(stage.body);
    // The rule, then two rows and the anchor of each block, then the text.
    assert_eq!(before.len(), 8);
    let nodes_before = stage.host.len();
    let (rule, anchor) = (before[0], before[3]);
    let kept: Vec<NodeId> = before[4..].to_vec();
    let texts: Vec<String> = data(&stage.host, &kept);
    let below: Vec<Vec<NodeId>> = kept.iter().map(|node| stage.host.children(*node)).collect();

    probe.rows = vec!["x".into(), "y".into(), "z".into()];
    probe.label = "u".into();
    fragment.update(&mut stage.host, &mut stage.registry, &probe, &[1]).unwrap();

    let after = stage.host.children(stage.body);
    assert_eq!(after.len(), 9);
    // What the second block and the text have in the tree is what it was, in the same order.
    assert_eq!(after[5..].to_vec(), kept);
    assert_eq!(data(&stage.host, &kept), texts);
    for (node, children) in kept.iter().zip(below.iter()) {
        assert_eq!(stage.host.get_parent(*node), Some(stage.body));
        assert_eq!(&stage.host.children(*node), children);
    }
    // The old rows of the first block are gone, and nothing else that was there has moved.
    let old: Vec<NodeId> = after.iter().copied().filter(|node| *node < nodes_before).collect();
    assert_eq!(old, [vec![rule, anchor], kept.clone()].concat());
    assert_eq!(stage.host.get_parent(before[1]), None);
    assert_eq!(stage.host.get_parent(before[2]), None);
    // The first block has three new rows right in front of its anchor, in the order of the
    // items.
    assert_eq!(after[0], rule);
    assert_eq!(after[4], anchor);
    assert!(after[1..4].iter().all(|node| *node >= nodes_before));
    let rows: Vec<String> = after[1..4]
        .iter()
        .map(|row| stage.host.data(stage.host.children(*row)[0]).unwrap())
        .collect();
    assert_eq!(rows, vec!["x", "y", "z"]);
}

#[test]
fn a_conditional_needs_a_level_only_to_show_or_to_pass_an_update_on() {
    let mut stage = stage();
    let nested = built(&mut stage, Fragment::build().with_element("p", None));
    let mut part = DynamicPart::Conditional(Conditional::new(&mut stage.host, 5, nested));
    part.mount(&mut stage.host, &Location::parent(stage.body), 1).unwrap();
    let mut probe = Probe::default();

    // Hidden and staying hidden: nothing goes down.
    assert_eq!(part.update(&mut stage.host, &mut stage.registry, &probe, &[1], 0), Ok(()));
    probe.shows = true;
    assert_eq!(
        part.update(&mut stage.host, &mut stage.registry, &probe, &[1], 0),
        Err(Failure::TooDeep)
    );
    assert_eq!(stage.host.children(stage.body).len(), 1);
    assert_eq!(part.update(&mut stage.host, &mut stage.registry, &probe, &[1], 1), Ok(()));
    assert_eq!(stage.host.children(stage.body).len(), 2);
    // Shown and staying shown: the update goes down.
    assert_eq!(
        part.update(&mut stage.host, &mut stage.registry, &probe, &[1], 0),
        Err(Failure::TooDeep)
    );
    // Hiding takes the fragment out and needs no level.
    probe.shows = false;
    assert_eq!(part.update(&mut stage.host, &mut stage.registry, &probe, &[1], 0), Ok(()));
    assert_eq!(stage.host.children(stage.body).len(), 1);
}

#[test]
fn rows_with_parts_at_the_top_stand_in_front_of_the_anchor_in_the_order_of_the_items() {
    let mut stage = stage();
    let builder = Fragment::build()
        .with_element("header", None)
        .with_each(&[1], None, 7)
        .with_element("footer", None);
    let mut fragment = built(&mut stage, builder);
    let probe = Probe {
        label: "t".into(),
        shows: true,
        rows: vec!["a".into(), "b".into()],
        ..Probe::default()
    };
    fragment.mount(&mut stage.host, &Location::parent(stage.body)).unwrap();
    fragment.full_update(&mut stage.host, &mut stage.registry, &probe).unwrap();

    let host = &stage.host;
    let children = host.children(stage.body);
    let names: Vec<String> = children
        .iter()
        .map(|node| match (host.is_element(*node), host.data(*node)) {
            (true, Some(tag)) => tag,
            (false, Some(text)) if !text.is_empty() => format!("'{}'", text),
            _ => "#".to_string(),
        })
        .collect();
    // Each row: its element, its text, the fragment of its conditional in front of the
    // anchor of the conditional. Then the anchor of the block.
    assert_eq!(
        names,
        vec!["header", "footer", "a", "'t30'", "i", "#", "b", "'t30'", "i", "#", "#"]
    );
    for node in &children {
        assert_eq!(host.get_parent(*node), Some(stage.body));
    }
}

