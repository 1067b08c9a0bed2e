//! The broker's dispatch logic: what one decoded request does to the
//! registry and which replies go where.
//!
//! The transport around this crate runs the loop: it frames and decodes one
//! request, hands it here together with the requesting connection's
//! identifier, and then carries the returned [`Action`] out — writing the
//! reply back to the requester, or fanning a message out to a snapshot of
//! subscribers. Delivery failures come back through
//! [`prune_failed`], which heals the registry by dropping the dead
//! subscribers. Keeping the decisions here and the I/O outside means no
//! registry lock is ever held across a network write.
use vstd::prelude::*;

verus! {

use vstd::string::StringExecFns;
use crate::messages::{Reply, Request};
use crate::registry::{prune_model, subscribe_model, Registry};
use crate::registry::{lemma_prune_nothing, lemma_prune_step};

/// What the transport must do after one request was handled.
pub enum Action {
    /// Write this reply to the requesting connection alone.
    Respond(Reply),
    /// Write this reply to every one of these subscribers, each attempt
    /// independent of the others.
    Fanout {
        /// The point-in-time subscriber snapshot to deliver to.
        targets: Vec<u64>,
        /// The reply each of them receives.
        reply: Reply,
    },
}

/// Handles one request from the connection `from`.
///
/// A subscribe joins `from` to the channel (idempotently) and is answered
/// with `Subscribed`. A send leaves the registry alone: to a channel with
/// subscribers it becomes a fan-out of `Message` to exactly the current
/// snapshot; to an unknown (or emptied) channel it is answered with the
/// `Error` reply naming the channel — never broadcast to nobody.
pub fn handle_request(registry: &mut Registry, from: u64, request: Request) -> (action: Action)
    requires
        old(registry).wf(),
    ensures
        final(registry).wf(),
        match request {
            Request::Subscribe(name) => {
                &&& final(registry).subscribers_of(name@) == subscribe_model(
                    old(registry).subscribers_of(name@),
                    from,
                )
                &&& forall|n: Seq<char>|
                    #![trigger final(registry).subscribers_of(n)]
                    n != name@ ==> final(registry).subscribers_of(n) == old(
                        registry,
                    ).subscribers_of(n)
                &&& action matches Action::Respond(r) && r matches Reply::Subscribed(c) && c@
                    == name@
            },
            Request::Send { channel, message } => {
                &&& *final(registry) == *old(registry)
                &&& if old(registry).has_channel(channel@) {
                    action matches Action::Fanout { targets, reply }
                        && targets@ == old(registry).subscribers_of(channel@) && (
                    reply matches Reply::Message { channel: c, message: m } && c@ == channel@ && m@
                        == message@)
                } else {
                    action matches Action::Respond(r) && r matches Reply::Error(m) && m@
                        == "no such channel: "@ + channel@
                }
            },
        },
{
    match request {
        Request::Subscribe(name) => {
            registry.subscribe(&name, from);
            Action::Respond(Reply::Subscribed(name))
        },
        Request::Send { channel, message } => {
            match registry.snapshot(&channel) {
                Some(targets) => Action::Fanout {
                    targets,
                    reply: Reply::Message { channel, message },
                },
                None => Action::Respond(Reply::Error(no_such_channel(&channel))),
            }
        },
    }
}

/// After a fan-out, drops every subscriber whose delivery failed from the
/// channel published to: exactly the failed ones go, every live subscriber
/// stays in order, and no other channel changes. A channel emptied by the
/// pruning goes with it.
pub fn prune_failed(registry: &mut Registry, channel: &String, failed: &Vec<u64>)
    requires
        old(registry).wf(),
    ensures
        final(registry).wf(),
        final(registry).subscribers_of(channel@) == prune_model(
            old(registry).subscribers_of(channel@),
            failed@,
        ),
        forall|n: Seq<char>|
            #![trigger final(registry).subscribers_of(n)]
            n != channel@ ==> final(registry).subscribers_of(n) == old(registry).subscribers_of(n),
{
    proof {
        lemma_prune_nothing(old(registry).subscribers_of(channel@));
        assert(failed@.take(0) =~= Seq::<u64>::empty());
    }
    let n = failed.len();
    let mut k: usize = 0;
    while k < n
        invariant
            n == failed@.len(),
            k <= n,
            registry.wf(),
            registry.subscribers_of(channel@) == prune_model(
                old(registry).subscribers_of(channel@),
                failed@.take(k as int),
            ),
            forall|nm: Seq<char>|
                #![trigger registry.subscribers_of(nm)]
                nm != channel@ ==> registry.subscribers_of(nm) == old(registry).subscribers_of(nm),
        decreases n - k,
    {
        registry.remove(channel, failed[k]);
        k = k + 1;
        proof {
            lemma_prune_step(
                old(registry).subscribers_of(channel@),
                failed@,
                k as int - 1,
            );
        }
    }
    proof {
        assert(failed@.take(n as int) =~= failed@);
    }
}

/// The reply text for a publish to an unknown channel.
fn no_such_channel(channel: &String) -> (m: String)
    ensures
        m@ == "no such channel: "@ + channel@,
{
    let mut m = String::from_str("no such channel: ");
    m.append(channel.as_str());
    m
}

} // verus!
