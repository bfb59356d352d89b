use kinesis::fragment::EventRegistry;
use kinesis::host::model::HostCallback;

#[test]
fn the_same_event_id_gets_the_same_callback() {
    let mut registry = EventRegistry::new(3);
    let first = registry.get(5);
    let second = registry.get(5);
    assert_eq!(first, second);
    assert_eq!(first, HostCallback { owner: 3, event_id: 5 });
    assert_eq!(registry.len(), 1);
}

#[test]
fn different_event_ids_get_different_callbacks() {
    let mut registry = EventRegistry::new(3);
    let five = registry.get(5);
    let six = registry.get(6);
    assert_ne!(five, six);
    assert_eq!(registry.get(5), five);
    assert_eq!(registry.len(), 2);
}

#[test]
fn callbacks_are_made_on_first_request() {
    let mut registry = EventRegistry::new(0);
    assert_eq!(registry.owner(), 0);
    assert_eq!(registry.len(), 0);
    assert!(!registry.is_cached(1));
    registry.get(1);
    assert!(registry.is_cached(1));
    assert!(!registry.is_cached(2));
}

#[test]
fn registries_of_different_controllers_make_different_callbacks() {
    let mut one = EventRegistry::new(1);
    let mut two = EventRegistry::new(2);
    assert_ne!(one.get(0), two.get(0));
}
