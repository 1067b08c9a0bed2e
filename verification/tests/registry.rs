use pubsub::registry::Registry;

#[test]
fn snapshot_of_unknown_channel_is_not_found() {
    let reg = Registry::new();
    assert!(reg.snapshot(&"news".to_string()).is_none());
}

#[test]
fn snapshot_after_one_subscribe_holds_exactly_that_subscriber() {
    let mut reg = Registry::new();
    reg.subscribe(&"news".to_string(), 7);
    assert_eq!(reg.snapshot(&"news".to_string()), Some(vec![7]));
    assert!(reg.snapshot(&"sports".to_string()).is_none());
}

#[test]
fn duplicate_subscribe_is_idempotent() {
    let mut reg = Registry::new();
    reg.subscribe(&"news".to_string(), 7);
    reg.subscribe(&"news".to_string(), 7);
    assert_eq!(reg.snapshot(&"news".to_string()), Some(vec![7]));
}

#[test]
fn subscribers_keep_join_order() {
    let mut reg = Registry::new();
    reg.subscribe(&"news".to_string(), 2);
    reg.subscribe(&"news".to_string(), 1);
    reg.subscribe(&"news".to_string(), 3);
    reg.subscribe(&"news".to_string(), 1);
    assert_eq!(reg.snapshot(&"news".to_string()), Some(vec![2, 1, 3]));
}

#[test]
fn removing_the_last_subscriber_removes_the_channel() {
    let mut reg = Registry::new();
    reg.subscribe(&"news".to_string(), 7);
    reg.remove(&"news".to_string(), 7);
    assert!(reg.snapshot(&"news".to_string()).is_none());
}

#[test]
fn removing_one_subscriber_keeps_the_others() {
    let mut reg = Registry::new();
    reg.subscribe(&"news".to_string(), 1);
    reg.subscribe(&"news".to_string(), 2);
    reg.subscribe(&"news".to_string(), 3);
    reg.remove(&"news".to_string(), 2);
    assert_eq!(reg.snapshot(&"news".to_string()), Some(vec![1, 3]));
}

#[test]
fn removal_touches_only_the_named_channel() {
    let mut reg = Registry::new();
    reg.subscribe(&"news".to_string(), 1);
    reg.subscribe(&"sports".to_string(), 1);
    reg.remove(&"news".to_string(), 1);
    assert!(reg.snapshot(&"news".to_string()).is_none());
    assert_eq!(reg.snapshot(&"sports".to_string()), Some(vec![1]));
}

#[test]
fn removing_from_an_unknown_channel_changes_nothing() {
    let mut reg = Registry::new();
    reg.subscribe(&"news".to_string(), 1);
    reg.remove(&"sports".to_string(), 1);
    assert_eq!(reg.snapshot(&"news".to_string()), Some(vec![1]));
}

#[test]
fn disconnect_removes_a_subscriber_everywhere() {
    let mut reg = Registry::new();
    reg.subscribe(&"news".to_string(), 1);
    reg.subscribe(&"news".to_string(), 2);
    reg.subscribe(&"sports".to_string(), 1);
    reg.remove_everywhere(1);
    assert_eq!(reg.snapshot(&"news".to_string()), Some(vec![2]));
    assert!(reg.snapshot(&"sports".to_string()).is_none());
}
