//! Core of a line-oriented publish/subscribe message broker.
//!
//! The crate verifies the three pieces of the broker that carry its logic:
//! the framer that turns a raw byte stream into newline-terminated lines
//! (`lines`), the channel registry that tracks which subscriber belongs to
//! which channel (`registry`), and the dispatcher that decides, for each
//! decoded request, how the registry changes and which replies go where
//! (`broker`). The `commands` module parses the interactive client's
//! keyboard commands into requests. Transport, task scheduling and the
//! textual encoding of individual messages live outside this crate.
pub mod broker;
pub mod commands;
pub mod lines;
pub mod messages;
pub mod registry;
