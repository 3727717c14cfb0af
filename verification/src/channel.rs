//! The two queues around the listener: key presses coming in from the hook's
//! callbacks, and the names of fired actions going out to the consumer.

use crate::key::KeyId;
use crossbeam_channel::{Receiver, Sender};
use vstd::prelude::*;

verus! {

#[verifier::external_type_specification]
#[verifier::external_body]
#[verifier::reject_recursive_types(T)]
pub struct ExSender<T>(Sender<T>);

#[verifier::external_type_specification]
#[verifier::external_body]
#[verifier::reject_recursive_types(T)]
pub struct ExReceiver<T>(Receiver<T>);

/// Creates the queue of key presses with `crossbeam_channel::unbounded`.
/// Nothing is claimed of the two ends.
#[verifier::external_body]
pub(crate) fn key_channel() -> (ends: (Sender<KeyId>, Receiver<KeyId>)) {
    crossbeam_channel::unbounded()
}

/// Takes at most one key press off the queue with `Receiver::try_recv`, which
/// never blocks. What comes back depends on what the callbacks have pushed so
/// far, so nothing is claimed of it; an empty and a disconnected queue both
/// give `None`.
#[verifier::external_body]
pub(crate) fn try_receive_key(receiver: &Receiver<KeyId>) -> (event: Option<KeyId>) {
    receiver.try_recv().ok()
}

/// Pushes one key press onto the queue with `Sender::send`. Returns whether
/// the queue took it; it does not where the receiving end is gone.
#[verifier::external_body]
pub(crate) fn send_key(sender: &Sender<KeyId>, key: KeyId) -> (delivered: bool) {
    sender.send(key).is_ok()
}

/// Pushes one action name onto the outbound queue with `Sender::try_send`,
/// which never blocks. Returns whether the queue took it; it does not where
/// the queue is full or the consumer is gone.
#[verifier::external_body]
pub(crate) fn send_name(sender: &Sender<String>, name: String) -> (delivered: bool) {
    sender.try_send(name).is_ok()
}

} // verus!
