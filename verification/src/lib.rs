//! Named multi-key actions over a global keyboard hook.
//!
//! Clients register actions, each bound to a set of physical keys, and are
//! told when every key of an action has been struck within a configurable
//! recency window.
//!
//! - `key`: key identifiers and the parsing of key names.
//! - `action`: one action and the times at which its keys were last pressed.
//! - `model`: the registered actions as a mathematical object, and what
//!   holds of it.
//! - `registry`: the registered actions with their reverse lookup.
//! - `hotkey_listener`: the listener that ties the registry to the hook and
//!   to the queues.
//! - `hook`, `channel`, `clock`: the keyboard hook, the queues and the time,
//!   as far as the listener needs them.

pub mod action;
pub mod channel;
pub mod clock;
pub mod error;
pub mod hook;
pub mod hotkey_listener;
pub mod key;
pub mod model;
pub mod registry;
