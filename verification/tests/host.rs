use kinesis::host::model::{Failure, HostOp};
use kinesis::host::Host;

#[test]
fn insert_before_appends_without_anchor() {
    let mut host = Host::new();
    let root = host.create_element("div");
    let a = host.create_text_node("a");
    let b = host.create_text_node("b");
    assert_eq!(host.insert_before(root, a, None), Ok(()));
    assert_eq!(host.insert_before(root, b, None), Ok(()));
    assert_eq!(host.children(root), vec![a, b]);
    assert_eq!(host.get_parent(a), Some(root));
}

#[test]
fn insert_before_anchor_goes_in_front() {
    let mut host = Host::new();
    let root = host.create_element("div");
    let a = host.create_text_node("a");
    let b = host.create_text_node("b");
    host.insert_before(root, a, None).unwrap();
    host.insert_before(root, b, Some(a)).unwrap();
    assert_eq!(host.children(root), vec![b, a]);
}

#[test]
fn insert_before_moves_a_mounted_node() {
    let mut host = Host::new();
    let root = host.create_element("div");
    let other = host.create_element("p");
    let a = host.create_text_node("a");
    host.insert_before(root, other, None).unwrap();
    host.insert_before(root, a, None).unwrap();
    host.insert_before(other, a, None).unwrap();
    assert_eq!(host.children(root), vec![other]);
    assert_eq!(host.children(other), vec![a]);
    assert_eq!(host.get_parent(a), Some(other));
}

#[test]
fn insert_failures() {
    let mut host = Host::new();
    let root = host.create_element("div");
    let child = host.create_element("p");
    let text = host.create_text_node("t");
    let loose = host.create_text_node("loose");
    host.insert_before(root, child, None).unwrap();
    assert_eq!(host.insert_before(root, 99, None), Err(Failure::UnknownNode));
    assert_eq!(host.insert_before(text, child, None), Err(Failure::NotAnElement));
    assert_eq!(host.insert_before(child, root, None), Err(Failure::Cycle));
    assert_eq!(host.insert_before(root, root, None), Err(Failure::Cycle));
    assert_eq!(host.insert_before(root, text, Some(loose)), Err(Failure::NotAChild));
    assert_eq!(host.children(root), vec![child]);
}

#[test]
fn remove_child_takes_the_node_out() {
    let mut host = Host::new();
    let root = host.create_element("div");
    let a = host.create_text_node("a");
    let b = host.create_text_node("b");
    host.insert_before(root, a, None).unwrap();
    host.insert_before(root, b, None).unwrap();
    assert_eq!(host.remove_child(root, a), Ok(()));
    assert_eq!(host.children(root), vec![b]);
    assert_eq!(host.get_parent(a), None);
    assert_eq!(host.remove_child(root, a), Err(Failure::NotAChild));
}

#[test]
fn set_text_data_overwrites_text_only() {
    let mut host = Host::new();
    let element = host.create_element("p");
    let text = host.create_text_node("old");
    assert_eq!(host.set_text_data(text, "new"), Ok(()));
    assert_eq!(host.data(text), Some("new".to_string()));
    assert_eq!(host.set_text_data(element, "x"), Err(Failure::NotText));
    assert_eq!(host.set_text_data(7, "x"), Err(Failure::UnknownNode));
    assert_eq!(host.data(element), Some("p".to_string()));
}

#[test]
fn every_change_is_logged_in_order() {
    let mut host = Host::new();
    let root = host.create_element("div");
    let text = host.create_text_node("");
    host.insert_before(root, text, None).unwrap();
    host.set_text_data(text, "x").unwrap();
    host.remove_child(root, text).unwrap();
    assert_eq!(
        host.take_ops(),
        vec![
            HostOp::Created { node: root },
            HostOp::Created { node: text },
            HostOp::Inserted { parent: root, node: text, anchor: None },
            HostOp::TextSet { node: text },
            HostOp::Removed { parent: root, node: text },
        ]
    );
    assert_eq!(host.take_ops(), vec![]);
}
