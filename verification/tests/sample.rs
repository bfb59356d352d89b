use kinesis::controller::Controller;
use kinesis::fragment::routing::Routing;
use kinesis::fragment::Location;
use kinesis::host::model::{HostCallback, NodeId};
use kinesis::host::Host;
use kinesis::simple::{Sample, Simple, BOLD, CLEAR, DECREMENT, INCREMENT};

/// The text of every text node below `node`, in document order.
fn texts(host: &Host, node: NodeId) -> Vec<String> {
    let mut found = Vec::new();
    for child in host.children(node) {
        if host.is_element(child) {
            found.extend(texts(host, child));
        } else {
            found.push(host.data(child).unwrap());
        }
    }
    found
}

/// The texts that the sample shows for the given count, anchors included as empty texts.
fn expected(count: usize) -> Vec<String> {
    let mut shown = vec![
        "some content: ".to_string(),
        count.to_string(),
        "decrement".to_string(),
        "increment".to_string(),
    ];
    if count % 2 == 0 {
        shown.push("showing!".to_string());
    }
    shown.push(String::new());
    for value in 0..count {
        shown.push(format!("counting {}", value));
    }
    shown.push(String::new());
    shown.push("Bolded this text: ".to_string());
    shown.push(count.to_string());
    shown.push("Clear".to_string());
    shown
}

fn mounted(count: usize) -> (Host, NodeId, Controller<Sample>) {
    let mut host = Host::new();
    let body = host.create_element("body");
    let mut controller = Controller::new(&mut host, Simple::new(count), 0, None).unwrap();
    controller.mount(&mut host, &Location::parent(body)).unwrap();
    (host, body, controller)
}

#[test]
fn render_of_count_three() {
    let (host, body, controller) = mounted(3);
    assert!(controller.is_mounted());
    let shown = texts(&host, body);
    assert_eq!(shown, expected(3));
    assert_eq!(shown[1], "3");
    assert!(!shown.contains(&"showing!".to_string()));
    let rows: Vec<&String> = shown.iter().filter(|text| text.starts_with("counting")).collect();
    assert_eq!(rows, vec!["counting 0", "counting 1", "counting 2"]);
}

#[test]
fn decrement_updates_text_conditional_and_rows() {
    let (mut host, body, mut controller) = mounted(3);
    let changed = controller.handle_event(&mut host, DECREMENT).unwrap().changed;
    assert_eq!(changed, Some(vec![0]));
    assert_eq!(controller.component().count(), 2);
    let shown = texts(&host, body);
    assert_eq!(shown, expected(2));
    assert_eq!(shown[1], "2");
    assert!(shown.contains(&"showing!".to_string()));
    let rows = shown.iter().filter(|text| text.starts_with("counting")).count();
    assert_eq!(rows, 2);
}

#[test]
fn detach_then_change_then_mount_again() {
    let (mut host, body, mut controller) = mounted(3);
    controller.detach(&mut host, true).unwrap();
    assert!(!controller.is_mounted());
    assert_eq!(host.children(body), Vec::<NodeId>::new());
    controller.component_mut().set_count(11);
    controller.notify_changed(&mut host, &[0]).unwrap();
    assert_eq!(host.children(body), Vec::<NodeId>::new());
    controller.mount(&mut host, &Location::parent(body)).unwrap();
    let shown = texts(&host, body);
    assert_eq!(shown, expected(11));
    assert_eq!(shown[1], "11");
    let rows = shown.iter().filter(|text| text.starts_with("counting")).count();
    assert_eq!(rows, 11);
}

#[test]
fn increment_then_decrement_shows_the_first_count_again() {
    let (mut host, body, mut controller) = mounted(4);
    assert_eq!(texts(&host, body), expected(4));
    assert_eq!(controller.handle_event(&mut host, INCREMENT).unwrap().changed, Some(vec![0]));
    assert_eq!(texts(&host, body), expected(5));
    assert_eq!(controller.handle_event(&mut host, DECREMENT).unwrap().changed, Some(vec![0]));
    assert_eq!(texts(&host, body), expected(4));
}

#[test]
fn decrement_at_zero_changes_nothing() {
    let (mut host, body, mut controller) = mounted(0);
    host.take_ops();
    assert_eq!(controller.handle_event(&mut host, DECREMENT).unwrap().changed, None);
    assert_eq!(controller.component().count(), 0);
    assert_eq!(host.take_ops(), vec![]);
    assert_eq!(texts(&host, body), expected(0));
}

#[test]
fn unknown_event_changes_nothing() {
    let (mut host, body, mut controller) = mounted(2);
    host.take_ops();
    assert_eq!(controller.handle_event(&mut host, 77).unwrap().changed, None);
    assert_eq!(host.take_ops(), vec![]);
    assert_eq!(texts(&host, body), expected(2));
}

#[test]
fn buttons_listen_with_the_callbacks_of_their_controller() {
    let (host, body, _controller) = mounted(1);
    let top = host.children(body);
    let decrement = top[1];
    let increment = top[2];
    let clear = top[top.len() - 1];
    let (name, callback) = host.listener(decrement, 0).unwrap();
    assert_eq!(name, "click");
    assert_eq!((callback.owner, callback.event_id), (0, 0));
    let (_, callback) = host.listener(increment, 0).unwrap();
    assert_eq!((callback.owner, callback.event_id), (0, 1));
    let (_, callback) = host.listener(clear, 0).unwrap();
    assert_eq!((callback.owner, callback.event_id), (1, 0));
    assert_eq!(host.listener_count(decrement), 1);
    assert_eq!(host.listener(decrement, 1), None);
}

#[test]
fn clearing_the_child_clears_the_parent() {
    let (mut host, body, mut controller) = mounted(3);
    let clear = HostCallback { owner: BOLD, event_id: CLEAR };
    let routing = controller.dispatch(&mut host, clear).unwrap();
    assert_eq!(routing, Routing::Changed(vec![0]));
    assert_eq!(controller.component().count(), 0);
    assert_eq!(texts(&host, body), expected(0));
}

#[test]
fn dispatch_of_a_root_event_is_the_cycle_of_the_root() {
    let (mut host, body, mut controller) = mounted(3);
    let routing = controller.dispatch(&mut host, HostCallback { owner: 0, event_id: INCREMENT }).unwrap();
    assert_eq!(routing, Routing::Changed(vec![0]));
    assert_eq!(texts(&host, body), expected(4));
}

#[test]
fn mount_then_detach_leaves_the_body_as_it_was_with_a_child_component() {
    let mut host = Host::new();
    let body = host.create_element("body");
    let first = host.create_text_node("first");
    let last = host.create_text_node("last");
    host.insert_before(body, first, None).unwrap();
    host.insert_before(body, last, None).unwrap();
    let mut controller = Controller::new(&mut host, Simple::new(4), 0, None).unwrap();
    let at = Location::anchor(&host, last).unwrap();
    controller.mount(&mut host, &at).unwrap();
    let mounted = host.children(body);
    assert_eq!(mounted[0], first);
    assert_eq!(mounted[mounted.len() - 1], last);
    assert!(mounted.len() > 2);
    controller.handle_event(&mut host, DECREMENT).unwrap();
    controller.handle_event(&mut host, DECREMENT).unwrap();
    assert_eq!(controller.detach(&mut host, true), Ok(()));
    assert_eq!(host.children(body), vec![first, last]);
    // The fragment can be mounted once more, and shows the state as it is now.
    controller.mount(&mut host, &Location::parent(body)).unwrap();
    let shown = texts(&host, body);
    assert_eq!(&shown[..2], &["first".to_string(), "last".to_string()]);
    assert_eq!(&shown[2..], &expected(2)[..]);
}
