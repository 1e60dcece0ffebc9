//! Shared-state enforcement engine for a password-gated domain blocker.
//!
//! The library holds the verified core: the configuration document, its
//! JSON persistence format and its schema migration, the hosts-file
//! reconciliation over a marker-delimited region, the session lifecycle
//! state machine, and the command layer that turns requests into state
//! transitions. File, registry and process plumbing lives outside the
//! library and hands plain values in and out.

pub mod codec;
pub mod config;
pub mod commands;
pub mod hosts;
pub mod password;
pub mod registry;
pub mod session;
