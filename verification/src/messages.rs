//! The protocol's message types.
//!
//! One request or reply travels per line of the wire protocol. The concrete
//! textual encoding of a single message is outside this crate: callers hand
//! in decoded [`Request`] values and carry the returned [`Reply`] values to
//! their encoder.
use vstd::prelude::*;

verus! {

/// What a client asks of the broker.
#[derive(Debug, Clone, PartialEq, Eq)]
pub enum Request {
    /// Join the named channel; every later publish there reaches the caller.
    Subscribe(String),
    /// Publish a message to every current subscriber of a channel.
    Send {
        /// The channel published to.
        channel: String,
        /// The message delivered to each subscriber.
        message: String,
    },
}

/// What the broker sends back over a connection.
#[derive(Debug, Clone, PartialEq, Eq)]
pub enum Reply {
    /// Confirms a subscription to the named channel.
    Subscribed(String),
    /// Reports a failed request to its sender.
    Error(String),
    /// One published message, fanned out to a subscriber.
    Message {
        /// The channel the message was published to.
        channel: String,
        /// The published message.
        message: String,
    },
}

} // verus!
