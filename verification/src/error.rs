//! What can go wrong when the listener is set up or an action is registered
//! or unregistered.

use vstd::prelude::*;

verus! {

/// The ways in which a call on the listener can fail. A call that fails
/// leaves the registered actions as they were.
#[derive(Debug)]
pub enum Error {
    /// The keyboard hook could not be created; the listener is unusable.
    HookCreate,
    /// An action with this name over the same set of keys is registered
    /// already.
    ActionAlreadyExists,
    /// No action with this name over this set of keys is registered.
    ActionDoesNotExist,
    /// One of the key names denotes no key.
    BadKeyCodeName,
    /// The list of keys is empty: an action without keys would count as
    /// pressed at all times.
    EmptyKeySet,
    /// The hook refused a callback for one of the keys; the hook's own
    /// message says why.
    CannotRegisterHotkey(String),
}

} // verus!
