//! A named set of keys, with the time at which each was last seen pressed.

use crate::key::{distinct_keys, holds_key, lemma_distinct, same_key_set, KeyId};
use vstd::prelude::*;

verus! {

/// How far in the past, in nanoseconds, the keys of a new action are taken to
/// have been pressed last: one minute, so that an action does not count as
/// pressed before real presses arrive.
pub const STALE_MARGIN_NANOS: u64 = 60_000_000_000;

/// What an action is, mathematically: its name, and for each of its keys the
/// time of the last press seen, in nanoseconds on the listener's clock. The
/// keys of the action are the domain of `last_press`.
pub struct ActionView {
    pub name: Seq<char>,
    pub last_press: Map<KeyId, int>,
}

impl ActionView {
    /// The set of keys that must all be recently pressed for the action to
    /// fire.
    pub open spec fn keys(self) -> Set<KeyId> {
        self.last_press.dom()
    }

    /// Whether the action has at least one key.
    pub open spec fn has_keys(self) -> bool {
        exists|k: KeyId| self.last_press.contains_key(k)
    }

    /// The action as it is when created at time `now`: every key was last
    /// pressed one stale margin before `now`.
    pub open spec fn fresh(name: Seq<char>, keys: Set<KeyId>, now: int) -> ActionView {
        ActionView {
            name,
            last_press: Map::new(|k: KeyId| keys.contains(k), |k: KeyId| now - STALE_MARGIN_NANOS),
        }
    }

    /// The action after a press of `key` was seen at time `now`. A key that is
    /// not one of the action's keys changes nothing: the key set is fixed
    /// when the action is created.
    pub open spec fn pressed(self, key: KeyId, now: int) -> ActionView {
        if self.last_press.contains_key(key) {
            ActionView { name: self.name, last_press: self.last_press.insert(key, now) }
        } else {
            self
        }
    }

    /// Whether the action counts as pressed at time `now`: every one of its
    /// keys was last pressed less than `window` nanoseconds ago.
    pub open spec fn is_pressed(self, now: int, window: int) -> bool {
        forall|k: KeyId| #[trigger]
            self.last_press.contains_key(k) ==> now - self.last_press[k] < window
    }
}

/// Right after a press of one of its keys, an action counts as pressed
/// exactly when the window is not empty and each of its other keys was last
/// pressed less than `window` nanoseconds before: all keys must have been
/// struck within the window of each other, not only the one just pressed.
pub proof fn lemma_pressed_after_press(a: ActionView, key: KeyId, now: int, window: int)
    requires
        a.last_press.contains_key(key),
    ensures
        a.pressed(key, now).is_pressed(now, window) <==> 0 < window && forall|k: KeyId|
            a.last_press.contains_key(k) && k != key ==> now - a.last_press[k] < window,
{
    let after = a.pressed(key, now);
    assert(after.last_press.contains_key(key));
    if after.is_pressed(now, window) {
        assert forall|k: KeyId| a.last_press.contains_key(k) && k != key implies now
            - a.last_press[k] < window by {
            assert(after.last_press.contains_key(k));
        }
    }
}

/// A registered action.
pub struct Action {
    name: String,
    keys: Vec<KeyId>,
    last_press: Vec<i128>,
}

impl View for Action {
    type V = ActionView;

    closed spec fn view(&self) -> ActionView {
        ActionView {
            name: self.name@,
            last_press: Map::new(
                |k: KeyId| self.keys@.contains(k),
                |k: KeyId| self.last_press@[self.keys@.index_of(k)] as int,
            ),
        }
    }
}

impl Action {
    /// The representation is sound: each key is stored once, with one
    /// timestamp, and every timestamp is one that `new` or `press_key` wrote.
    pub closed spec fn wf(&self) -> bool {
        &&& self.keys@.len() == self.last_press@.len()
        &&& self.keys@.no_duplicates()
        &&& forall|i: int|
            0 <= i < self.last_press@.len() ==> -(STALE_MARGIN_NANOS as int)
                <= #[trigger] self.last_press@[i] <= u64::MAX
    }

    /// In a sound action the position of a key among the stored keys is the
    /// position of its timestamp.
    proof fn lemma_time_at(&self, i: int)
        requires
            self.wf(),
            0 <= i < self.keys@.len(),
        ensures
            self@.last_press.contains_key(self.keys@[i]),
            self@.last_press[self.keys@[i]] == self.last_press@[i],
    {
        let k = self.keys@[i];
        assert(self.keys@.contains(k));
        let j = self.keys@.index_of(k);
        assert(self.keys@[j] == k);
    }

    /// Creates the action `name` over the keys of `keys`, as of time `now`.
    /// Order and repetition in `keys` do not matter.
    pub fn new(name: &String, keys: &[KeyId], now: u64) -> (action: Action)
        ensures
            action.wf(),
            action@ == ActionView::fresh(name@, keys@.to_set(), now as int),
    {
        let own_keys = distinct_keys(keys);
        proof {
            lemma_distinct(keys@);
        }
        let stale: i128 = (now as i128) - (STALE_MARGIN_NANOS as i128);
        let mut last_press: Vec<i128> = Vec::new();
        let mut i: usize = 0;
        while i < own_keys.len()
            invariant
                i <= own_keys.len(),
                last_press.len() == i,
                forall|j: int| 0 <= j < i ==> last_press[j] == stale,
            decreases own_keys.len() - i,
        {
            last_press.push(stale);
            i += 1;
        }
        let action = Action { name: name.clone(), keys: own_keys, last_press };
        proof {
            let fresh = ActionView::fresh(name@, keys@.to_set(), now as int);
            assert forall|k: KeyId| #[trigger]
                action@.last_press.contains_key(k) implies action@.last_press[k]
                == fresh.last_press[k] by {
                let j = action.keys@.index_of(k);
                assert(action.keys@[j] == k);
            }
            assert(action@.last_press =~= fresh.last_press);
        }
        action
    }

    /// The name of the action.
    pub fn name(&self) -> (name: &String)
        ensures
            name@ == self@.name,
    {
        &self.name
    }

    /// The keys of the action, each once.
    pub fn key_ids(&self) -> (keys: Vec<KeyId>)
        requires
            self.wf(),
        ensures
            keys@.no_duplicates(),
            keys@.to_set() == self@.keys(),
    {
        let keys = self.keys.clone();
        assert(keys@ =~= self.keys@);
        assert(keys@.to_set() =~= self@.keys());
        keys
    }

    /// When `key` was last seen pressed, or `None` where `key` is not one of
    /// the action's keys.
    pub fn last_press(&self, key: KeyId) -> (r: Option<i128>)
        requires
            self.wf(),
        ensures
            match r {
                Some(t) => self@.last_press.contains_key(key) && self@.last_press[key] == t,
                None => !self@.last_press.contains_key(key),
            },
    {
        let mut i: usize = 0;
        while i < self.keys.len()
            invariant
                i <= self.keys.len(),
                self.wf(),
                forall|j: int| 0 <= j < i ==> self.keys[j] != key,
            decreases self.keys.len() - i,
        {
            if self.keys[i] == key {
                proof {
                    self.lemma_time_at(i as int);
                }
                return Some(self.last_press[i]);
            }
            i += 1;
        }
        None
    }

    /// Whether `key` is one of the action's keys.
    pub fn has_key(&self, key: KeyId) -> (r: bool)
        ensures
            r == self@.keys().contains(key),
    {
        holds_key(self.keys.as_slice(), key)
    }

    /// Whether the action's keys are exactly the keys of `keys`, whatever
    /// their order there.
    pub fn has_key_set(&self, keys: &[KeyId]) -> (r: bool)
        ensures
            r == (self@.keys() == keys@.to_set()),
    {
        assert(self.keys@.to_set() =~= self@.keys());
        same_key_set(self.keys.as_slice(), keys)
    }

    /// Records that a press of `key` was seen at time `now`. A key that is not
    /// one of the action's keys changes nothing.
    pub fn press_key(&mut self, key: KeyId, now: u64)
        requires
            old(self).wf(),
        ensures
            final(self).wf(),
            final(self)@ == old(self)@.pressed(key, now as int),
    {
        let mut i: usize = 0;
        while i < self.keys.len()
            invariant
                i <= self.keys.len(),
                *self == *old(self),
                self.wf(),
                forall|j: int| 0 <= j < i ==> self.keys[j] != key,
            decreases self.keys.len() - i,
        {
            if self.keys[i] == key {
                self.last_press[i] = now as i128;
                proof {
                    let before = old(self)@;
                    let after = self@;
                    assert(self.keys@ == old(self).keys@);
                    assert(before.last_press.contains_key(key));
                    assert forall|k: KeyId| #[trigger]
                        after.last_press.contains_key(k) implies after.last_press[k]
                        == before.last_press.insert(key, now as int)[k] by {
                        let j = self.keys@.index_of(k);
                        assert(self.keys@[j] == k);
                        if k == key {
                            assert(j == i);
                        } else {
                            assert(j != i);
                        }
                    }
                    assert(after.last_press =~= before.last_press.insert(key, now as int));
                }
                return ;
            }
            i += 1;
        }
    }

    /// Whether the action counts as pressed at time `now`: every one of its
    /// keys was last pressed less than `min_elapsed_time` nanoseconds ago.
    pub fn is_pressed(&self, now: u64, min_elapsed_time: u64) -> (r: bool)
        requires
            self.wf(),
        ensures
            r == self@.is_pressed(now as int, min_elapsed_time as int),
    {
        let mut i: usize = 0;
        while i < self.keys.len()
            invariant
                i <= self.keys.len(),
                self.wf(),
                forall|j: int|
                    0 <= j < i ==> now - (#[trigger] self.last_press@[j]) < min_elapsed_time,
            decreases self.keys.len() - i,
        {
            let age: i128 = (now as i128) - self.last_press[i];
            if age >= min_elapsed_time as i128 {
                proof {
                    self.lemma_time_at(i as int);
                }
                return false;
            }
            i += 1;
        }
        proof {
            assert forall|k: KeyId| #[trigger]
                self@.last_press.contains_key(k) implies now - self@.last_press[k]
                < min_elapsed_time by {
                let j = self.keys@.index_of(k);
                assert(self.keys@[j] == k);
            }
        }
        true
    }
}

} // verus!
