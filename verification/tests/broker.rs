use pubsub::broker::{handle_request, prune_failed, Action};
use pubsub::messages::{Reply, Request};
use pubsub::registry::Registry;

const CLIENT_A: u64 = 1;
const CLIENT_B: u64 = 2;
const CLIENT_C: u64 = 3;

#[test]
fn subscribe_is_confirmed() {
    let mut reg = Registry::new();
    let action = handle_request(&mut reg, CLIENT_A, Request::Subscribe("news".to_string()));
    match action {
        Action::Respond(reply) => assert_eq!(reply, Reply::Subscribed("news".to_string())),
        Action::Fanout { .. } => panic!("a subscribe must not fan out"),
    }
}

#[test]
fn publish_reaches_the_subscriber() {
    let mut reg = Registry::new();
    handle_request(&mut reg, CLIENT_A, Request::Subscribe("news".to_string()));
    let action = handle_request(
        &mut reg,
        CLIENT_B,
        Request::Send { channel: "news".to_string(), message: "hi".to_string() },
    );
    match action {
        Action::Fanout { targets, reply } => {
            assert_eq!(targets, vec![CLIENT_A]);
            assert_eq!(
                reply,
                Reply::Message { channel: "news".to_string(), message: "hi".to_string() }
            );
        }
        Action::Respond(reply) => panic!("expected a fan-out, got {:?}", reply),
    }
}

#[test]
fn publish_to_unknown_channel_is_an_error_to_the_sender() {
    let mut reg = Registry::new();
    let action = handle_request(
        &mut reg,
        CLIENT_C,
        Request::Send { channel: "sports".to_string(), message: "hi".to_string() },
    );
    match action {
        Action::Respond(reply) => {
            assert_eq!(reply, Reply::Error("no such channel: sports".to_string()));
        }
        Action::Fanout { .. } => panic!("nobody is subscribed, nothing may fan out"),
    }
}

#[test]
fn end_to_end_scenario() {
    let mut reg = Registry::new();

    // Client A subscribes to "news" and gets the confirmation.
    let subscribed = handle_request(&mut reg, CLIENT_A, Request::Subscribe("news".to_string()));
    match subscribed {
        Action::Respond(reply) => assert_eq!(reply, Reply::Subscribed("news".to_string())),
        Action::Fanout { .. } => panic!("a subscribe must not fan out"),
    }

    // Client B publishes to "news"; A (and only A) receives the message.
    let published = handle_request(
        &mut reg,
        CLIENT_B,
        Request::Send { channel: "news".to_string(), message: "hi".to_string() },
    );
    match published {
        Action::Fanout { targets, reply } => {
            assert_eq!(targets, vec![CLIENT_A]);
            assert_eq!(
                reply,
                Reply::Message { channel: "news".to_string(), message: "hi".to_string() }
            );
        }
        Action::Respond(reply) => panic!("expected a fan-out, got {:?}", reply),
    }

    // Client C publishes to "sports", which nobody subscribed to.
    let failed = handle_request(
        &mut reg,
        CLIENT_C,
        Request::Send { channel: "sports".to_string(), message: "hi".to_string() },
    );
    match failed {
        Action::Respond(reply) => {
            assert_eq!(reply, Reply::Error("no such channel: sports".to_string()));
        }
        Action::Fanout { .. } => panic!("nobody is subscribed, nothing may fan out"),
    }
}

/// Delivery with one permanently broken sink: writing to subscriber 2 always
/// fails, writing to anyone else succeeds.
fn try_deliver(target: u64) -> Result<(), ()> {
    if target == 2 {
        Err(())
    } else {
        Ok(())
    }
}

#[test]
fn fanout_tolerates_a_broken_sink_and_prunes_only_it() {
    let mut reg = Registry::new();
    for id in [1u64, 2, 3] {
        handle_request(&mut reg, id, Request::Subscribe("news".to_string()));
    }
    let action = handle_request(
        &mut reg,
        CLIENT_A,
        Request::Send { channel: "news".to_string(), message: "hi".to_string() },
    );
    let targets = match action {
        Action::Fanout { targets, .. } => targets,
        Action::Respond(reply) => panic!("expected a fan-out, got {:?}", reply),
    };
    assert_eq!(targets, vec![1, 2, 3]);

    let mut delivered = Vec::new();
    let mut failed = Vec::new();
    for target in targets {
        match try_deliver(target) {
            Ok(()) => delivered.push(target),
            Err(()) => failed.push(target),
        }
    }
    // The two live subscribers still received the message.
    assert_eq!(delivered, vec![1, 3]);

    // Pruning drops exactly the broken subscriber.
    prune_failed(&mut reg, &"news".to_string(), &failed);
    assert_eq!(reg.snapshot(&"news".to_string()), Some(vec![1, 3]));
}

#[test]
fn publish_after_disconnect_cleanup_reports_no_such_channel() {
    let mut reg = Registry::new();
    handle_request(&mut reg, CLIENT_A, Request::Subscribe("news".to_string()));
    // Client A disconnects; its session cleans it out of every channel.
    reg.remove_everywhere(CLIENT_A);
    let action = handle_request(
        &mut reg,
        CLIENT_B,
        Request::Send { channel: "news".to_string(), message: "hi".to_string() },
    );
    match action {
        Action::Respond(reply) => {
            assert_eq!(reply, Reply::Error("no such channel: news".to_string()));
        }
        Action::Fanout { .. } => panic!("the channel should be gone"),
    }
}

#[test]
fn pruning_everyone_removes_the_channel() {
    let mut reg = Registry::new();
    handle_request(&mut reg, CLIENT_A, Request::Subscribe("news".to_string()));
    prune_failed(&mut reg, &"news".to_string(), &vec![CLIENT_A]);
    assert!(reg.snapshot(&"news".to_string()).is_none());
}
