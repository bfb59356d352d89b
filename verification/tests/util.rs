use kinesis::component::Identifier;
use kinesis::counter::Counter;
use kinesis::dom::event::EventType;
use kinesis::dom::text::Text;
use kinesis::dom::{DomElementKind, ElementKind, Kind};
use kinesis::fragment::builder::Builder;
use kinesis::fragment::{EventRegistry, Node};
use kinesis::host::Host;
use kinesis::util::decimal::to_decimal;
use kinesis::util::hash_map_list::HashMapList;
use kinesis::util::tree::{IntoIter, Tree, TreeNode};

#[test]
fn decimal_notation() {
    assert_eq!(to_decimal(0), "0");
    assert_eq!(to_decimal(7), "7");
    assert_eq!(to_decimal(10), "10");
    assert_eq!(to_decimal(123), "123");
    assert_eq!(to_decimal(9007199254740993), "9007199254740993");
    assert_eq!(to_decimal(usize::MAX), usize::MAX.to_string());
}

#[test]
fn identifier_paths() {
    let root = Identifier::new();
    assert_eq!(root.as_ref(), &[] as &[usize]);
    assert_eq!(root.len(), 0);
    let child = root.child(4).child(0);
    assert_eq!(child.as_ref(), &[4, 0]);
    assert_eq!(child.sibling().as_ref(), &[4, 1]);
    assert_eq!(child.sibling().sibling().as_ref(), &[4, 2]);
    assert_eq!(root.sibling().as_ref(), &[] as &[usize]);
    assert_eq!(Identifier::from(vec![1, 2, 3]), Identifier::new().child(1).child(2).child(3));
    assert_eq!(child.clone().into_iter(), vec![4, 0]);
}

#[test]
fn identifier_written_out() {
    assert_eq!(Identifier::new().to_string(), "");
    assert_eq!(Identifier::from(vec![7]).to_string(), "7");
    assert_eq!(Identifier::from(vec![0, 12, 3]).to_string(), "0.12.3");
}

#[test]
fn hash_map_list_appends_under_a_key() {
    let mut list: HashMapList<usize, usize> = HashMapList::new();
    assert_eq!(list.get(&1), None);
    list.insert(1, 10);
    list.insert(2, 20);
    list.insert(1, 11);
    list.insert(1, 10);
    assert_eq!(list.get(&1), Some(&[10, 11, 10][..]));
    assert_eq!(list.get(&2), Some(&[20][..]));
    assert_eq!(list.get(&3), None);
    let mut keys = list.keys();
    keys.sort();
    assert_eq!(keys, vec![1, 2]);
}

#[test]
fn hash_map_list_iterates_key_by_key_in_the_order_of_insertion() {
    let mut list: HashMapList<usize, char> = HashMapList::new();
    list.insert(1, 'a');
    list.insert(2, 'x');
    list.insert(1, 'b');
    list.insert(1, 'c');
    let mut iter = list.iter();
    let mut seen = Vec::new();
    while let Some((key, value)) = iter.next() {
        seen.push((key, *value));
    }
    assert_eq!(iter.next(), None);
    let ones: Vec<char> = seen.iter().filter(|pair| pair.0 == 1).map(|pair| pair.1).collect();
    let twos: Vec<char> = seen.iter().filter(|pair| pair.0 == 2).map(|pair| pair.1).collect();
    assert_eq!(ones, vec!['a', 'b', 'c']);
    assert_eq!(twos, vec!['x']);
    assert_eq!(seen.len(), 4);
    // The values of one key come together.
    let first = seen[0].0;
    let boundary = seen.iter().position(|pair| pair.0 != first).unwrap();
    assert!(seen[boundary..].iter().all(|pair| pair.0 != first));
}

#[test]
fn hash_map_list_hands_out_its_pairs_from_the_end_of_each_list() {
    let mut list: HashMapList<usize, char> = HashMapList::new();
    list.insert(1, 'a');
    list.insert(2, 'x');
    list.insert(1, 'b');
    let mut iter = list.into_iter();
    let mut seen = Vec::new();
    while let Some(pair) = iter.next() {
        seen.push(pair);
    }
    let ones: Vec<char> = seen.iter().filter(|pair| pair.0 == 1).map(|pair| pair.1).collect();
    assert_eq!(ones, vec!['b', 'a']);
    assert_eq!(seen.len(), 3);
    assert_eq!(iter.next(), None);
}

#[test]
fn empty_hash_map_list_has_nothing_to_iterate() {
    let list: HashMapList<usize, usize> = HashMapList::new();
    assert_eq!(list.iter().next(), None);
    assert_eq!(list.into_iter().next(), None);
}

#[test]
fn tree_insert_and_get() {
    let mut tree: Tree<usize, &str> = Tree::new();
    assert_eq!(tree.get(&[]), None);
    assert_eq!(tree.get(&[1]), None);
    assert_eq!(tree.insert(&[], "nothing"), Err(()));
    assert_eq!(tree.insert(&[1, 2, 3], "deep"), Ok(()));
    assert_eq!(tree.get(&[1, 2, 3]), Some(&"deep"));
    // The nodes on the way exist, without value.
    assert_eq!(tree.get(&[1]), None);
    assert!(tree.get_node(&[1]).is_some());
    assert!(tree.get_node(&[1, 2]).unwrap().value.is_none());
    assert!(tree.get_node(&[2]).is_none());
    assert_eq!(tree.insert(&[1], "top"), Ok(()));
    // Inserting at a node replaces all that was below it.
    assert_eq!(tree.get(&[1]), Some(&"top"));
    assert_eq!(tree.get(&[1, 2, 3]), None);
    assert!(tree.get_node(&[1, 2]).is_none());
}

#[test]
fn tree_insert_keeps_what_is_beside_the_path() {
    let mut tree: Tree<usize, usize> = Tree::new();
    tree.insert(&[1, 1], 11).unwrap();
    tree.insert(&[1, 2], 12).unwrap();
    tree.insert(&[2], 2).unwrap();
    assert_eq!(tree.get(&[1, 1]), Some(&11));
    assert_eq!(tree.get(&[1, 2]), Some(&12));
    assert_eq!(tree.get(&[2]), Some(&2));
}

#[test]
fn tree_remove() {
    let mut tree: Tree<usize, usize> = Tree::new();
    tree.insert(&[1, 1], 11).unwrap();
    tree.insert(&[1, 1, 5], 115).unwrap();
    tree.insert(&[1, 2], 12).unwrap();
    assert!(tree.remove(&[]).is_err());
    assert!(tree.remove(&[9]).is_err());
    let taken = tree.remove(&[1, 1]).ok().unwrap();
    assert_eq!(taken.value, Some(11));
    assert_eq!(taken.children.get(&[5]), Some(&115));
    assert_eq!(tree.get(&[1, 1]), None);
    assert_eq!(tree.get(&[1, 1, 5]), None);
    assert_eq!(tree.get(&[1, 2]), Some(&12));
    // A removal that finds nothing still makes the nodes on its way.
    assert!(tree.remove(&[7, 8]).is_err());
    assert!(tree.get_node(&[7]).is_some());
    assert!(tree.get_node(&[7, 8]).is_none());
}

#[test]
fn tree_nodes() {
    let leaf: TreeNode<usize, usize> = TreeNode::new(3);
    assert_eq!(leaf.value, Some(3));
    assert!(leaf.children.0.is_empty());
    let empty: TreeNode<usize, usize> = TreeNode::empty();
    assert_eq!(empty.value, None);
    assert!(empty.children.0.is_empty());
}

#[test]
fn counter_follows_its_buttons() {
    let mut counter = Counter::new();
    assert_eq!((counter.count(), counter.only_up()), (0, 0));
    let decrement = Identifier::from(vec![0, 2]);
    let increment = Identifier::from(vec![0, 3]);
    assert_eq!(counter.handle_event(&decrement, EventType::Click), Some(vec![0]));
    assert_eq!((counter.count(), counter.only_up()), (-1, 0));
    assert_eq!(counter.handle_event(&increment, EventType::Click), Some(vec![0, 1]));
    assert_eq!(counter.handle_event(&increment, EventType::Click), Some(vec![0, 1]));
    assert_eq!((counter.count(), counter.only_up()), (1, 2));
    assert_eq!(counter.handle_event(&Identifier::from(vec![0]), EventType::Click), None);
    assert_eq!(counter.handle_event(&Identifier::from(vec![0, 2, 0]), EventType::Click), None);
    assert_eq!((counter.count(), counter.only_up()), (1, 2));
}

#[test]
fn names_of_events_and_elements() {
    assert_eq!(EventType::Click.name(), "click");
    assert_eq!(DomElementKind::Div.tag(), "div");
    assert_eq!(DomElementKind::P.tag(), "p");
    assert_eq!(DomElementKind::Button.tag(), "button");
    assert_eq!(DomElementKind::default(), DomElementKind::Div);
    assert_eq!(ElementKind::P.tag(), "p");
    assert_eq!(ElementKind::Div.tag(), "div");
    assert_eq!(Text::new("some text").as_str(), "some text");
}

#[test]
fn node_descriptions_create_what_they_describe() {
    let mut host = Host::new();
    let mut registry = EventRegistry::new(9);
    let text = Node::text("hello").create_node(&mut host, &mut registry);
    let element = Node::element("div").with_event("click", 2).create_node(&mut host, &mut registry);
    assert_eq!(host.data(text), Some("hello".to_string()));
    assert!(!host.is_element(text));
    assert_eq!(host.data(element), Some("div".to_string()));
    assert!(host.is_element(element));
    assert_eq!(host.listener_count(text), 0);
    let (name, callback) = host.listener(element, 0).unwrap();
    assert_eq!(name, "click");
    assert_eq!((callback.owner, callback.event_id), (9, 2));
    let piece = Kind::Element(ElementKind::P).node().create_node(&mut host, &mut registry);
    assert_eq!(host.data(piece), Some("p".to_string()));
    let words = Kind::Text("words".to_string()).node().create_node(&mut host, &mut registry);
    assert_eq!(host.data(words), Some("words".to_string()));
}

#[test]
fn builder_wraps_a_part_with_its_dependencies_and_place() {
    let wrapped = Builder::new(&[3, 1], Some(2), "part");
    assert_eq!(wrapped.dependencies(), &[3, 1]);
    assert_eq!(wrapped.location(), Some(2));
    assert_eq!(*wrapped.builder(), "part");
}

#[test]
fn tree_node_hands_out_each_value_once_and_from_the_top_down() {
    let mut below: Tree<usize, &str> = Tree::new();
    assert_eq!(below.insert(&[1], "one"), Ok(()));
    assert_eq!(below.insert(&[1, 2], "one two"), Ok(()));
    assert_eq!(below.insert(&[1, 3], "one three"), Ok(()));
    assert_eq!(below.insert(&[4, 5, 6], "four five six"), Ok(()));
    let node = TreeNode { value: Some("top"), children: below };

    let mut values = node.into_iter();
    let mut seen: Vec<&str> = Vec::new();
    while let Some(value) = values.next() {
        seen.push(value);
    }
    assert_eq!(values.next(), None);

    assert_eq!(seen.len(), 5);
    assert_eq!(seen[0], "top");
    let place = |value: &str| seen.iter().position(|found| *found == value).unwrap();
    assert!(place("one") < place("one two"));
    assert!(place("one") < place("one three"));
    let mut sorted = seen.clone();
    sorted.sort();
    assert_eq!(sorted, vec!["four five six", "one", "one three", "one two", "top"]);
}

#[test]
fn tree_node_without_values_has_nothing_to_hand_out() {
    let mut below: Tree<usize, usize> = Tree::new();
    assert_eq!(below.insert(&[1, 2], 12), Ok(()));
    assert!(below.remove(&[1, 2]).is_ok());
    let mut values = IntoIter::new(TreeNode { value: None, children: below });
    assert_eq!(values.next(), None);

    let mut leaf = IntoIter::new(TreeNode::<usize, usize>::new(7));
    assert_eq!(leaf.next(), Some(7));
    assert_eq!(leaf.next(), None);
}

