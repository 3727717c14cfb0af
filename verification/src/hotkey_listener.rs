//! The listener: it keeps the registry in step with the keyboard hook, and
//! turns the stream of key presses into a stream of fired action names.
//!
//! Key presses reach the listener through a queue that the hook's callbacks
//! fill from their own threads. `poll` takes one press off that queue per
//! call and never blocks; the names of the actions that fire go out on the
//! queue handed to `new`.

use crate::action::ActionView;
use crate::channel::{key_channel, send_key, send_name, try_receive_key};
use crate::clock::nanos_since;
use crate::hook::{create_hook, install_callback, remove_callback};
use crate::key::{
    all_names_known, find_key, ids_of_keys, ids_of_names, key_ids, parse_key_names, Key, KeyId,
};
use crate::model::{
    after_key_press, fired, first_seen, handle_of, is_registered, key_in_use,
    lemma_unused_key_is_no_op, names_of,
};
use crate::registry::ActionRegistry;
use crossbeam_channel::{Receiver, Sender};
use livesplit_hotkey::Hook;
use std::time::Instant;
use vstd::prelude::*;

pub use crate::error::Error;

verus! {

/// The recency window of a new listener, in nanoseconds: a fifth of a second.
pub const DEFAULT_MIN_ELAPSED_NANOS: u64 = 200_000_000;

/// What a listener is, mathematically: its registered actions, slot by slot
/// in registration order, and its recency window in nanoseconds.
pub struct ListenerView {
    pub actions: Seq<Option<ActionView>>,
    pub min_elapsed_time: int,
}

impl ListenerView {
    /// The listener after it has taken `event` off the queue of key presses at
    /// time `now`. No event changes nothing; a press is recorded in every
    /// action that has the key.
    pub open spec fn after_event(self, event: Option<KeyId>, now: int) -> ListenerView {
        match event {
            Some(key) => ListenerView {
                actions: after_key_press(self.actions, key, now),
                min_elapsed_time: self.min_elapsed_time,
            },
            None => self,
        }
    }

    /// The names that go out when the listener takes `event` off the queue at
    /// time `now`, in registration order of their actions.
    pub open spec fn fired_on(self, event: Option<KeyId>, now: int) -> Seq<Seq<char>> {
        match event {
            Some(key) => fired(
                after_key_press(self.actions, key, now),
                key,
                now,
                self.min_elapsed_time,
            ),
            None => Seq::empty(),
        }
    }

    /// The listener with the action `name` over `keys` added as of time `now`.
    pub open spec fn with_action(self, name: Seq<char>, keys: Set<KeyId>, now: int) -> ListenerView {
        ListenerView {
            actions: self.actions.push(Some(ActionView::fresh(name, keys, now))),
            min_elapsed_time: self.min_elapsed_time,
        }
    }

    /// The listener without the action `name` over `keys`.
    pub open spec fn without_action(self, name: Seq<char>, keys: Set<KeyId>) -> ListenerView {
        ListenerView {
            actions: self.actions.update(handle_of(self.actions, name, keys), None),
            min_elapsed_time: self.min_elapsed_time,
        }
    }
}

/// A tick that finds the queue of key presses empty is a no-op, however often
/// it is repeated: the listener stays as it is, the times of all keys
/// included, and no name goes out.
pub proof fn lemma_no_event_is_no_op(listener: ListenerView, now: int)
    ensures
        listener.after_event(None, now) == listener,
        listener.fired_on(None, now) == Seq::<Seq<char>>::empty(),
{
}

/// A tick that finds a press of a key that no registered action has is a
/// no-op as well: the press is discarded.
pub proof fn lemma_unmapped_key_is_no_op(listener: ListenerView, key: KeyId, now: int)
    requires
        !key_in_use(listener.actions, key),
    ensures
        listener.after_event(Some(key), now) == listener,
        listener.fired_on(Some(key), now) == Seq::<Seq<char>>::empty(),
{
    lemma_unused_key_is_no_op(listener.actions, key, now, listener.min_elapsed_time);
}

/// Listens for registered actions on a global keyboard hook.
pub struct HotkeyListener {
    hook: Hook,
    registry: ActionRegistry,
    min_elapsed_time: u64,
    callback_sender: Sender<KeyId>,
    callback_receiver: Receiver<KeyId>,
    listener_sender: Sender<String>,
    started: Instant,
}

impl View for HotkeyListener {
    type V = ListenerView;

    closed spec fn view(&self) -> ListenerView {
        ListenerView {
            actions: self.registry@,
            min_elapsed_time: self.min_elapsed_time as int,
        }
    }
}

impl HotkeyListener {
    /// The listener's registry is sound.
    pub closed spec fn wf(&self) -> bool {
        self.registry.wf()
    }

    /// Creates a listener with no actions and the default recency window.
    /// Names of fired actions will be pushed onto `listener_sender`. Fails
    /// with `HookCreate` where the keyboard hook cannot be had.
    pub fn new(listener_sender: Sender<String>) -> (r: Result<HotkeyListener, Error>)
        ensures
            match r {
                Ok(listener) => listener.wf() && listener@ == (ListenerView {
                    actions: Seq::empty(),
                    min_elapsed_time: DEFAULT_MIN_ELAPSED_NANOS as int,
                }),
                Err(Error::HookCreate) => true,
                Err(_) => false,
            },
    {
        HotkeyListener::with_hook(create_hook(), listener_sender)
    }

    /// Creates a listener around `hook`, the outcome of an attempt to create
    /// the keyboard hook: with no actions and the default recency window
    /// where there is a hook, and failing with `HookCreate` where there is
    /// none. The listener owns the hook from then on; dropping the listener
    /// releases it, and every callback with it.
    pub fn with_hook(hook: Option<Hook>, listener_sender: Sender<String>) -> (r: Result<
        HotkeyListener,
        Error,
    >)
        ensures
            match r {
                Ok(listener) => hook is Some && listener.wf() && listener@ == (ListenerView {
                    actions: Seq::empty(),
                    min_elapsed_time: DEFAULT_MIN_ELAPSED_NANOS as int,
                }),
                Err(Error::HookCreate) => hook is None,
                Err(_) => false,
            },
    {
        let hook = match hook {
            Some(hook) => hook,
            None => {
                return Err(Error::HookCreate);
            },
        };
        let (callback_sender, callback_receiver) = key_channel();
        Ok(
            HotkeyListener {
                hook,
                registry: ActionRegistry::new(),
                min_elapsed_time: DEFAULT_MIN_ELAPSED_NANOS,
                callback_sender,
                callback_receiver,
                listener_sender,
                started: Instant::now(),
            },
        )
    }

    /// The registered actions.
    pub fn registry(&self) -> (registry: &ActionRegistry)
        requires
            self.wf(),
        ensures
            registry.wf(),
            registry@ == self@.actions,
    {
        &self.registry
    }

    /// The names of the registered actions, in registration order.
    pub fn get_action_names(&self) -> (names: Vec<String>)
        requires
            self.wf(),
        ensures
            names.deep_view() == names_of(self@.actions),
    {
        self.registry.action_names()
    }

    /// The recency window, in nanoseconds.
    pub fn get_min_elapsed_time(&self) -> (nanos: u64)
        ensures
            nanos == self@.min_elapsed_time,
    {
        self.min_elapsed_time
    }

    /// Sets the recency window, in nanoseconds, for every action alike.
    pub fn set_min_elapsed_time(&mut self, min_elapsed_time: u64)
        requires
            old(self).wf(),
        ensures
            final(self).wf(),
            final(self)@ == (ListenerView {
                actions: old(self)@.actions,
                min_elapsed_time: min_elapsed_time as int,
            }),
    {
        self.min_elapsed_time = min_elapsed_time;
    }

    /// Takes `event`, the outcome of one attempt to receive a key press, as
    /// of time `now`: records the press in every action that has the key, and
    /// returns the names of the actions that fire, in registration order. No
    /// event, or a key that no action has, changes nothing and fires nothing.
    pub fn handle_event(&mut self, event: Option<KeyId>, now: u64) -> (names: Vec<String>)
        requires
            old(self).wf(),
        ensures
            final(self).wf(),
            final(self)@ == old(self)@.after_event(event, now as int),
            names.deep_view() == old(self)@.fired_on(event, now as int),
    {
        match event {
            Some(key) => {
                let _ = self.registry.record_key_press(key, now);
                self.registry.names_fired(key, now, self.min_elapsed_time)
            },
            None => {
                let names: Vec<String> = Vec::new();
                assert(names.deep_view() =~= Seq::<Seq<char>>::empty());
                names
            },
        }
    }

    /// Pushes the names of fired actions onto the outbound queue, in order,
    /// without waiting for room, and returns how many of them the queue took.
    /// A name that it does not take, because it is full or the consumer is
    /// gone, is dropped; the listener goes on.
    pub fn deliver(&self, names: Vec<String>) -> (taken: usize)
        ensures
            taken <= names.len(),
    {
        let mut taken: usize = 0;
        let mut i: usize = 0;
        while i < names.len()
            invariant
                i <= names.len(),
                taken <= i,
            decreases names.len() - i,
        {
            if send_name(&self.listener_sender, names[i].clone()) {
                taken += 1;
            }
            i += 1;
        }
        taken
    }

    /// Puts a press of `key` on the queue of key presses, exactly as the
    /// callback of that key does when the key is struck, and returns whether
    /// the queue took it. The next tick that finds the press at the head of
    /// the queue handles it.
    pub fn queue_key_press(&self, key: KeyId) -> (queued: bool) {
        send_key(&self.callback_sender, key)
    }

    /// One tick of the listener: takes at most one key press off the queue,
    /// without waiting for one, handles it as of the present time, and sends
    /// out the names of the actions that fire. What the tick does to the
    /// listener is what `handle_event` does for the event and time it found.
    pub fn poll(&mut self)
        requires
            old(self).wf(),
        ensures
            final(self).wf(),
            exists|event: Option<KeyId>, now: u64|
                final(self)@ == #[trigger] old(self)@.after_event(event, now as int),
    {
        let event = try_receive_key(&self.callback_receiver);
        let now = nanos_since(&self.started);
        let names = self.handle_event(event, now);
        assert(self@ == old(self)@.after_event(event, now as int));
        let _ = self.deliver(names);
    }

    /// Removes the callbacks of the keys in `ids`, looking each key up in
    /// `keys`. A callback that the hook does not remove is left behind: it
    /// then only forwards presses of a key that no action has, and those are
    /// discarded.
    fn remove_callbacks(&self, keys: &Vec<Key>, ids: &Vec<KeyId>, count: usize)
        requires
            count <= ids.len(),
    {
        let mut i: usize = 0;
        while i < count
            invariant
                i <= count,
                count <= ids.len(),
            decreases count - i,
        {
            match find_key(keys, ids[i]) {
                Some(key) => {
                    let _ = remove_callback(&self.hook, key);
                },
                None => {},
            }
            i += 1;
        }
    }

    /// Installs a callback for each key in `ids`, looking each key up in
    /// `keys`. Only the keys of a new action that no registered action has
    /// yet are handed to the hook, each once: no key gets a second callback.
    /// Where the hook refuses one, those installed before it are removed
    /// again and its message is returned: all are installed or none is.
    /// Where there is no such key the hook is not asked, and cannot refuse.
    fn install_callbacks(&self, keys: &Vec<Key>, ids: &Vec<KeyId>) -> (r: Result<(), String>)
        requires
            self.wf(),
            ids@ == first_seen(self@.actions, key_ids(keys@)),
        ensures
            ids@.len() == 0 ==> r is Ok,
    {
        let mut i: usize = 0;
        while i < ids.len()
            invariant
                i <= ids.len(),
            decreases ids.len() - i,
        {
            match find_key(keys, ids[i]) {
                Some(key) => {
                    match install_callback(&self.hook, key, &self.callback_sender) {
                        Ok(()) => {},
                        Err(refusal) => {
                            self.remove_callbacks(keys, ids, i);
                            return Err(refusal);
                        },
                    }
                },
                None => {},
            }
            i += 1;
        }
        Ok(())
    }

    /// Concludes a registration once the hook has answered. `hooked` says
    /// whether the callbacks for the new keys of the action were installed.
    /// Where they were, the action `action_name` over `keys` is registered as
    /// of time `now`; where the hook refused, nothing is registered and the
    /// refusal is returned.
    pub fn finish_registration(
        &mut self,
        action_name: &String,
        keys: &[KeyId],
        hooked: Result<(), String>,
        now: u64,
    ) -> (r: Result<(), Error>)
        requires
            old(self).wf(),
        ensures
            final(self).wf(),
            match r {
                Ok(()) => {
                    &&& hooked is Ok
                    &&& keys@.len() > 0
                    &&& !is_registered(old(self)@.actions, action_name@, keys@.to_set())
                    &&& final(self)@ == old(self)@.with_action(
                        action_name@,
                        keys@.to_set(),
                        now as int,
                    )
                },
                Err(Error::CannotRegisterHotkey(refusal)) => {
                    &&& hooked == Err::<(), String>(refusal)
                    &&& final(self)@ == old(self)@
                },
                Err(Error::EmptyKeySet) => {
                    &&& hooked is Ok
                    &&& keys@.len() == 0
                    &&& final(self)@ == old(self)@
                },
                Err(Error::ActionAlreadyExists) => {
                    &&& hooked is Ok
                    &&& keys@.len() > 0
                    &&& is_registered(old(self)@.actions, action_name@, keys@.to_set())
                    &&& final(self)@ == old(self)@
                },
                Err(_) => false,
            },
    {
        match hooked {
            Err(refusal) => Err(Error::CannotRegisterHotkey(refusal)),
            Ok(()) => match self.registry.register(action_name, keys, now) {
                Ok(_) => Ok(()),
                Err(e) => Err(e),
            },
        }
    }

    /// Registers the action `action_name` over the keys that `keys` names.
    ///
    /// Every name is parsed first; then the action is checked against the
    /// registry; then a callback is installed for each key that no registered
    /// action has yet; and only then is the action entered. A call that fails
    /// at any of these steps leaves the listener as it was, and no callback
    /// of its own behind. The hook can only refuse where the action brings a
    /// key that no registered action has yet: an action over keys that all
    /// have their callbacks is registered without asking the hook.
    pub fn register_action(&mut self, action_name: &String, keys: &[String]) -> (r: Result<
        (),
        Error,
    >)
        requires
            old(self).wf(),
        ensures
            final(self).wf(),
            match r {
                Ok(()) => {
                    &&& all_names_known(keys.deep_view())
                    &&& keys@.len() > 0
                    &&& !is_registered(
                        old(self)@.actions,
                        action_name@,
                        ids_of_names(keys.deep_view()).to_set(),
                    )
                    &&& exists|now: u64|
                        final(self)@ == #[trigger] old(self)@.with_action(
                            action_name@,
                            ids_of_names(keys.deep_view()).to_set(),
                            now as int,
                        )
                },
                Err(Error::BadKeyCodeName) => {
                    &&& !all_names_known(keys.deep_view())
                    &&& final(self)@ == old(self)@
                },
                Err(Error::EmptyKeySet) => {
                    &&& keys@.len() == 0
                    &&& final(self)@ == old(self)@
                },
                Err(Error::ActionAlreadyExists) => {
                    &&& all_names_known(keys.deep_view())
                    &&& keys@.len() > 0
                    &&& is_registered(
                        old(self)@.actions,
                        action_name@,
                        ids_of_names(keys.deep_view()).to_set(),
                    )
                    &&& final(self)@ == old(self)@
                },
                Err(Error::CannotRegisterHotkey(_)) => {
                    &&& all_names_known(keys.deep_view())
                    &&& keys@.len() > 0
                    &&& !is_registered(
                        old(self)@.actions,
                        action_name@,
                        ids_of_names(keys.deep_view()).to_set(),
                    )
                    &&& first_seen(old(self)@.actions, ids_of_names(keys.deep_view())).len() > 0
                    &&& final(self)@ == old(self)@
                },
                Err(_) => false,
            },
    {
        let parsed = match parse_key_names(keys) {
            Some(parsed) => parsed,
            None => {
                return Err(Error::BadKeyCodeName);
            },
        };
        let ids = ids_of_keys(&parsed);
        if ids.len() == 0 {
            return Err(Error::EmptyKeySet);
        }
        if self.registry.find(action_name, ids.as_slice()).is_some() {
            return Err(Error::ActionAlreadyExists);
        }
        let new_keys = self.registry.keys_first_seen(ids.as_slice());
        let hooked = self.install_callbacks(&parsed, &new_keys);
        let now = nanos_since(&self.started);
        let r = self.finish_registration(action_name, ids.as_slice(), hooked, now);
        proof {
            if r is Ok {
                assert(self@ == old(self)@.with_action(
                    action_name@,
                    ids_of_names(keys.deep_view()).to_set(),
                    now as int,
                ));
            }
        }
        r
    }

    /// Removes the action `action_name` over the keys that `keys` names, and
    /// with it the callback of each key that no remaining action has. A call
    /// that fails leaves the listener as it was.
    pub fn unregister_action(&mut self, action_name: &String, keys: &[String]) -> (r: Result<
        (),
        Error,
    >)
        requires
            old(self).wf(),
        ensures
            final(self).wf(),
            match r {
                Ok(()) => {
                    &&& all_names_known(keys.deep_view())
                    &&& is_registered(
                        old(self)@.actions,
                        action_name@,
                        ids_of_names(keys.deep_view()).to_set(),
                    )
                    &&& final(self)@ == old(self)@.without_action(
                        action_name@,
                        ids_of_names(keys.deep_view()).to_set(),
                    )
                },
                Err(Error::BadKeyCodeName) => {
                    &&& !all_names_known(keys.deep_view())
                    &&& final(self)@ == old(self)@
                },
                Err(Error::ActionDoesNotExist) => {
                    &&& all_names_known(keys.deep_view())
                    &&& !is_registered(
                        old(self)@.actions,
                        action_name@,
                        ids_of_names(keys.deep_view()).to_set(),
                    )
                    &&& final(self)@ == old(self)@
                },
                Err(_) => false,
            },
    {
        let parsed = match parse_key_names(keys) {
            Some(parsed) => parsed,
            None => {
                return Err(Error::BadKeyCodeName);
            },
        };
        let ids = ids_of_keys(&parsed);
        match self.registry.unregister(action_name, ids.as_slice()) {
            Ok(orphans) => {
                self.remove_callbacks(&parsed, &orphans, orphans.len());
                Ok(())
            },
            Err(e) => Err(e),
        }
    }
}

} // verus!
