//! The global keyboard hook.

use crate::channel::send_key;
use crate::key::{Key, KeyId};
use crossbeam_channel::Sender;
use livesplit_hotkey::Hook;
use vstd::prelude::*;

verus! {

#[verifier::external_type_specification]
#[verifier::external_body]
pub struct ExHook(Hook);

/// Creates the hook with `Hook::new`; `None` where the platform refuses.
/// Whether it does depends on the machine, so nothing is claimed of the
/// result.
#[verifier::external_body]
pub(crate) fn create_hook() -> (r: Option<Hook>) {
    Hook::new().ok()
}

/// What an installed callback does on each press of its key: it pushes the
/// key's identifier onto the queue of key presses. A press that the queue
/// does not take is dropped.
pub(crate) fn forward_key_press(sender: &Sender<KeyId>, key: KeyId) {
    let _ = send_key(sender, key);
}

/// Installs a callback for `key` with `Hook::register`. The callback owns a
/// copy of `sender` and forwards each press to it. A refusal comes back as
/// the hook's own message. Whether the platform accepts the callback is not
/// known beforehand, so nothing is claimed of the result.
#[verifier::external_body]
pub(crate) fn install_callback(hook: &Hook, key: Key, sender: &Sender<KeyId>) -> (r: Result<
    (),
    String,
>) {
    let sender = sender.clone();
    let id = key.id();
    match hook.register(key.code(), move || forward_key_press(&sender, id)) {
        Ok(()) => Ok(()),
        Err(refusal) => Err(format!("{}", refusal)),
    }
}

/// Removes the callback for `key` with `Hook::unregister`. Returns whether
/// the hook reported success; nothing is claimed of that.
#[verifier::external_body]
pub(crate) fn remove_callback(hook: &Hook, key: Key) -> (removed: bool) {
    hook.unregister(key.code()).is_ok()
}

} // verus!
