//! The registered actions, with the reverse lookup from keys to actions.

use crate::action::{Action, ActionView};
use crate::error::Error;
use crate::key::{holds_key, KeyId};
use crate::model::{
    after_key_press, ascending, fired, fired_among, first_seen, handle_of, is_live,
    is_registered, key_in_use, lemma_fired_skip, lists, names_action, names_among, names_of,
    references, valid_actions,
};
use std::collections::HashMap;
use vstd::prelude::*;

verus! {

broadcast use vstd::std_specs::hash::group_hash_axioms;

/// Whether `index` is the reverse lookup of `actions`: it has an entry for
/// exactly the keys in use, and the entry of a key lists, in ascending order,
/// exactly the handles of the actions that have the key.
spec fn index_matches(
    actions: Seq<Option<ActionView>>,
    index: Map<KeyId, Vec<usize>>,
) -> bool {
    &&& forall|k: KeyId| #[trigger]
        index.contains_key(k) ==> index[k]@.len() > 0 && ascending(index[k]@)
    &&& forall|k: KeyId, i: int|
        index.contains_key(k) && 0 <= i < index[k]@.len() ==> references(
            actions,
            #[trigger] index[k]@[i] as int,
            k,
        )
    &&& forall|h: int, k: KeyId| #[trigger]
        references(actions, h, k) ==> index.contains_key(k) && lists(index[k]@, h)
}

/// Whether two lists of slots hold, slot by slot, actions of the same name
/// over the same keys.
spec fn same_shape(a: Seq<Option<ActionView>>, b: Seq<Option<ActionView>>) -> bool {
    &&& a.len() == b.len()
    &&& forall|h: int|
        0 <= h < a.len() ==> match #[trigger] a[h] {
            Some(x) => b[h] is Some && b[h].unwrap().name == x.name && b[h].unwrap().keys()
                == x.keys(),
            None => b[h] is None,
        }
}

/// Validity and the reverse lookup depend only on the names and keys of the
/// actions, not on when their keys were pressed.
proof fn lemma_same_shape(
    a: Seq<Option<ActionView>>,
    b: Seq<Option<ActionView>>,
    index: Map<KeyId, Vec<usize>>,
)
    requires
        same_shape(a, b),
        valid_actions(a),
        index_matches(a, index),
    ensures
        valid_actions(b),
        index_matches(b, index),
{
    assert forall|h: int, k: KeyId| references(b, h, k) == references(a, h, k) by {
        if 0 <= h < a.len() {
            match a[h] {
                Some(x) => {
                    assert(b[h].unwrap().keys().contains(k) == x.keys().contains(k));
                },
                None => {},
            }
        }
    }
    assert forall|h: int| #[trigger] is_live(b, h) implies b[h].unwrap().has_keys() by {
        assert(is_live(a, h));
        let k = choose|k: KeyId| a[h].unwrap().last_press.contains_key(k);
        assert(references(a, h, k));
        assert(references(b, h, k));
    }
    assert forall|h1: int, h2: int|
        #![trigger is_live(b, h1), is_live(b, h2)]
        is_live(b, h1) && is_live(b, h2) && b[h1].unwrap().name == b[h2].unwrap().name
            && b[h1].unwrap().keys() == b[h2].unwrap().keys() implies h1 == h2 by {
        assert(is_live(a, h1) && is_live(a, h2));
    }
    assert forall|k: KeyId, i: int|
        index.contains_key(k) && 0 <= i < index[k]@.len() implies references(
        b,
        #[trigger] index[k]@[i] as int,
        k,
    ) by {
        assert(references(a, index[k]@[i] as int, k));
    }
    assert forall|h: int, k: KeyId| #[trigger] references(b, h, k) implies index.contains_key(k)
        && lists(index[k]@, h) by {
        assert(references(a, h, k));
    }
}

/// The handles that `index` lists for `key`; none where it has no entry for
/// it.
spec fn entry(index: Map<KeyId, Vec<usize>>, key: KeyId) -> Seq<usize> {
    if index.contains_key(key) {
        index[key]@
    } else {
        Seq::empty()
    }
}

/// Whether the entry of `k` in `later` is its entry in `earlier`, with the
/// handle `h` appended where `k` is in `done`.
spec fn entry_extended(
    earlier: Map<KeyId, Vec<usize>>,
    later: Map<KeyId, Vec<usize>>,
    done: Seq<KeyId>,
    h: usize,
    k: KeyId,
) -> bool {
    if done.contains(k) {
        later.contains_key(k) && entry(later, k) == entry(earlier, k).push(h)
    } else {
        later.contains_key(k) == earlier.contains_key(k) && entry(later, k) == entry(earlier, k)
    }
}

/// Whether `later` is `earlier` with the handle `h` appended to the entry of
/// each key in `done`, and nothing else changed.
spec fn index_extended(
    earlier: Map<KeyId, Vec<usize>>,
    later: Map<KeyId, Vec<usize>>,
    done: Seq<KeyId>,
    h: usize,
) -> bool {
    forall|k: KeyId| #[trigger] entry_extended(earlier, later, done, h, k)
}

/// Appending a new action's handle to the entries of its keys turns the
/// reverse lookup of the old actions into that of the new ones.
proof fn lemma_index_extended(
    before: Seq<Option<ActionView>>,
    a: ActionView,
    earlier: Map<KeyId, Vec<usize>>,
    later: Map<KeyId, Vec<usize>>,
    done: Seq<KeyId>,
    h: usize,
)
    requires
        index_matches(before, earlier),
        h == before.len(),
        done.to_set() == a.keys(),
        index_extended(earlier, later, done, h),
    ensures
        index_matches(before.push(Some(a)), later),
{
    let after = before.push(Some(a));
    assert forall|k: KeyId| #[trigger] later.contains_key(k) implies later[k]@.len() > 0
        && ascending(later[k]@) by {
        let list = entry(later, k);
        assert(entry_extended(earlier, later, done, h, k));
        if done.contains(k) {
            assert forall|i: int, j: int| 0 <= i < j < list.len() implies list[i] < list[j] by {
                assert(references(before, earlier[k]@[i] as int, k));
            }
        }
    }
    assert forall|k: KeyId, i: int|
        later.contains_key(k) && 0 <= i < later[k]@.len() implies references(
        after,
        #[trigger] later[k]@[i] as int,
        k,
    ) by {
        let list = entry(later, k);
        assert(entry_extended(earlier, later, done, h, k));
        if done.contains(k) {
            assert(done.to_set().contains(k));
            if i < list.len() - 1 {
                assert(references(before, earlier[k]@[i] as int, k));
            }
        } else {
            assert(references(before, earlier[k]@[i] as int, k));
        }
    }
    assert forall|x: int, k: KeyId| #[trigger] references(after, x, k) implies later.contains_key(
        k,
    ) && lists(later[k]@, x) by {
        let list = entry(later, k);
        assert(entry_extended(earlier, later, done, h, k));
        if x < h {
            assert(references(before, x, k));
            let i = choose|i: int|
                0 <= i < earlier[k]@.len() && #[trigger] earlier[k]@[i] as int == x;
            assert(list[i] as int == x);
        } else {
            assert(a.keys().contains(k));
            assert(done.contains(k));
            assert(list[list.len() - 1] as int == x);
        }
    }
}

/// A list of handles without the handle `h`.
spec fn without(handles: Seq<usize>, h: usize) -> Seq<usize> {
    handles.remove(handles.index_of(h))
}

/// Taking a handle out of an ascending list that holds it leaves an
/// ascending list of the other handles.
proof fn lemma_without(handles: Seq<usize>, h: usize, at: int)
    requires
        ascending(handles),
        0 <= at < handles.len(),
        handles[at] == h,
    ensures
        without(handles, h) == handles.remove(at),
        ascending(without(handles, h)),
        forall|x: int| lists(without(handles, h), x) <==> lists(handles, x) && x != h,
{
    let found = handles.index_of(h);
    assert(handles.contains(h));
    assert(handles[found] == h);
    if found < at {
        assert(handles[found] < handles[at]);
    } else if at < found {
        assert(handles[at] < handles[found]);
    }
    let rest = handles.remove(at);
    assert forall|x: int| lists(rest, x) <==> lists(handles, x) && x != h by {
        if lists(rest, x) {
            let j = choose|j: int| 0 <= j < rest.len() && #[trigger] rest[j] as int == x;
            if j < at {
                assert(handles[j] as int == x);
                assert(handles[j] < handles[at]);
            } else {
                assert(handles[j + 1] as int == x);
                assert(handles[at] < handles[j + 1]);
            }
        }
        if lists(handles, x) && x != h {
            let j = choose|j: int| 0 <= j < handles.len() && #[trigger] handles[j] as int == x;
            if j < at {
                assert(rest[j] as int == x);
            } else {
                assert(rest[j - 1] as int == x);
            }
        }
    }
}

/// Whether the entry of `k` in `later` is its entry in `earlier`, without the
/// handle `h` where `k` is in `done`; an entry left empty is dropped.
spec fn entry_reduced(
    earlier: Map<KeyId, Vec<usize>>,
    later: Map<KeyId, Vec<usize>>,
    done: Seq<KeyId>,
    h: usize,
    k: KeyId,
) -> bool {
    if done.contains(k) {
        entry(later, k) == without(entry(earlier, k), h) && later.contains_key(k) == (entry(
            later,
            k,
        ).len() > 0)
    } else {
        later.contains_key(k) == earlier.contains_key(k) && entry(later, k) == entry(earlier, k)
    }
}

/// Whether `later` is `earlier` with the handle `h` taken out of the entry of
/// each key in `done`, and nothing else changed.
spec fn index_reduced(
    earlier: Map<KeyId, Vec<usize>>,
    later: Map<KeyId, Vec<usize>>,
    done: Seq<KeyId>,
    h: usize,
) -> bool {
    forall|k: KeyId| #[trigger] entry_reduced(earlier, later, done, h, k)
}

/// Taking a removed action's handle out of the entries of its keys turns the
/// reverse lookup of the old actions into that of the remaining ones.
proof fn lemma_index_reduced(
    before: Seq<Option<ActionView>>,
    earlier: Map<KeyId, Vec<usize>>,
    later: Map<KeyId, Vec<usize>>,
    done: Seq<KeyId>,
    h: usize,
)
    requires
        index_matches(before, earlier),
        is_live(before, h as int),
        done.to_set() == before[h as int].unwrap().keys(),
        index_reduced(earlier, later, done, h),
    ensures
        index_matches(before.update(h as int, None), later),
{
    let after = before.update(h as int, None);
    assert forall|x: int, k: KeyId| references(after, x, k) == (references(before, x, k) && x
        != h) by {}
    assert forall|k: KeyId| done.contains(k) == references(before, h as int, k) by {
        assert(done.to_set().contains(k) == done.contains(k));
    }
    assert forall|k: KeyId| done.contains(k) implies ascending(without(entry(earlier, k), h)) && (
    forall|x: int| lists(without(entry(earlier, k), h), x) <==> lists(entry(earlier, k), x) && x
        != h) by {
        assert(references(before, h as int, k));
        assert(lists(earlier[k]@, h as int));
        let at = choose|i: int| 0 <= i < earlier[k]@.len() && #[trigger] earlier[k]@[i] as int == h;
        lemma_without(earlier[k]@, h, at);
    }
    assert forall|k: KeyId| #[trigger] later.contains_key(k) implies later[k]@.len() > 0
        && ascending(later[k]@) by {
        assert(entry_reduced(earlier, later, done, h, k));
    }
    assert forall|k: KeyId, i: int|
        later.contains_key(k) && 0 <= i < later[k]@.len() implies references(
        after,
        #[trigger] later[k]@[i] as int,
        k,
    ) by {
        assert(entry_reduced(earlier, later, done, h, k));
        let x = later[k]@[i] as int;
        assert(lists(entry(later, k), x));
        assert(lists(entry(earlier, k), x));
        let j = choose|j: int| 0 <= j < earlier[k]@.len() && #[trigger] earlier[k]@[j] as int == x;
        assert(references(before, earlier[k]@[j] as int, k));
    }
    assert forall|x: int, k: KeyId| #[trigger] references(after, x, k) implies later.contains_key(
        k,
    ) && lists(later[k]@, x) by {
        assert(entry_reduced(earlier, later, done, h, k));
        assert(references(before, x, k));
        assert(lists(entry(earlier, k), x));
        if done.contains(k) {
            assert(lists(entry(later, k), x));
        }
    }
}

/// The registered actions, with a reverse lookup from each key to the actions
/// that depend on it.
pub struct ActionRegistry {
    slots: Vec<Option<Action>>,
    reverse_lookup: HashMap<KeyId, Vec<usize>>,
}

/// The model of a list of slots.
spec fn slots_view(slots: Seq<Option<Action>>) -> Seq<Option<ActionView>> {
    Seq::new(
        slots.len(),
        |h: int|
            match slots[h] {
                Some(a) => Some(a@),
                None => None,
            },
    )
}

/// Whether every action in a list of slots is soundly represented.
spec fn slots_wf(slots: Seq<Option<Action>>) -> bool {
    forall|h: int|
        0 <= h < slots.len() ==> match #[trigger] slots[h] {
            Some(a) => a.wf(),
            None => true,
        }
}

impl View for ActionRegistry {
    type V = Seq<Option<ActionView>>;

    closed spec fn view(&self) -> Seq<Option<ActionView>> {
        slots_view(self.slots@)
    }
}

impl ActionRegistry {
    /// The representation is sound: the actions are valid, and the reverse
    /// lookup matches them.
    pub closed spec fn wf(&self) -> bool {
        &&& slots_wf(self.slots@)
        &&& valid_actions(self@)
        &&& index_matches(self@, self.reverse_lookup@)
    }

    /// The reverse lookup: for each key that it has an entry for, the handles
    /// listed there.
    pub closed spec fn index(&self) -> Map<KeyId, Seq<usize>> {
        Map::new(
            |k: KeyId| self.reverse_lookup@.contains_key(k),
            |k: KeyId| self.reverse_lookup@[k]@,
        )
    }

    /// Every sound registry holds valid actions: each has at least one key,
    /// and no two agree in both name and key set.
    pub proof fn lemma_valid(&self)
        requires
            self.wf(),
        ensures
            valid_actions(self@),
    {
    }

    /// In every sound registry the reverse lookup has an entry for exactly
    /// the keys that some registered action has, and the entry of a key
    /// lists, in registration order, exactly the actions that have it. So a
    /// key whose last action is removed has no entry left.
    pub proof fn lemma_index(&self)
        requires
            self.wf(),
        ensures
            forall|k: KeyId| self.index().contains_key(k) <==> key_in_use(self@, k),
            forall|k: KeyId| #[trigger] self.index().contains_key(k) ==> ascending(self.index()[k]),
            forall|k: KeyId, h: int|
                self.index().contains_key(k) ==> (lists(self.index()[k], h) <==> #[trigger] references(
                    self@,
                    h,
                    k,
                )),
    {
        assert forall|k: KeyId| self.index().contains_key(k) <==> key_in_use(self@, k) by {
            if self.index().contains_key(k) {
                assert(references(self@, self.reverse_lookup@[k]@[0] as int, k));
            }
        }
        assert forall|k: KeyId, h: int| self.index().contains_key(k) implies (lists(
            self.index()[k],
            h,
        ) <==> #[trigger] references(self@, h, k)) by {
            if lists(self.index()[k], h) {
                let i = choose|i: int|
                    0 <= i < self.index()[k].len() && #[trigger] self.index()[k][i] as int == h;
                assert(references(self@, self.reverse_lookup@[k]@[i] as int, k));
            }
        }
    }

    /// An empty registry.
    pub fn new() -> (registry: ActionRegistry)
        ensures
            registry.wf(),
            registry@ == Seq::<Option<ActionView>>::empty(),
    {
        let registry = ActionRegistry { slots: Vec::new(), reverse_lookup: HashMap::new() };
        assert(registry@ =~= Seq::<Option<ActionView>>::empty());
        registry
    }

    /// How many handles have been given out so far.
    pub fn handle_count(&self) -> (n: usize)
        ensures
            n == self@.len(),
    {
        self.slots.len()
    }

    /// The action with the handle `handle`, or `None` where there is none:
    /// the handle was never given out, or its action has been unregistered.
    pub fn action(&self, handle: usize) -> (r: Option<&Action>)
        requires
            self.wf(),
        ensures
            match r {
                Some(a) => is_live(self@, handle as int) && a.wf() && self@[handle as int]
                    == Some(a@),
                None => !is_live(self@, handle as int),
            },
    {
        if handle < self.slots.len() {
            self.slots[handle].as_ref()
        } else {
            None
        }
    }

    /// The names of the registered actions, in registration order.
    pub fn action_names(&self) -> (names: Vec<String>)
        requires
            self.wf(),
        ensures
            names.deep_view() == names_of(self@),
    {
        let mut names: Vec<String> = Vec::new();
        let mut h: usize = 0;
        assert(names.deep_view() =~= names_among(self@, 0));
        while h < self.slots.len()
            invariant
                h <= self.slots.len(),
                names.deep_view() == names_among(self@, h as nat),
            decreases self.slots.len() - h,
        {
            let ghost earlier = names.deep_view();
            match &self.slots[h] {
                Some(a) => {
                    names.push(a.name().clone());
                    assert(names.deep_view() =~= earlier.push(a@.name));
                },
                None => {},
            }
            h += 1;
        }
        names
    }

    /// Whether some registered action has `key` among its keys: whether the
    /// reverse lookup has an entry for `key`.
    pub fn uses_key(&self, key: KeyId) -> (r: bool)
        requires
            self.wf(),
        ensures
            r == key_in_use(self@, key),
    {
        let r = self.reverse_lookup.contains_key(&key);
        proof {
            if r {
                let list = self.reverse_lookup@[key]@;
                assert(references(self@, list[0] as int, key));
            }
        }
        r
    }

    /// The handle of the action `name` over the keys of `keys`, whatever their
    /// order there, or `None` where no such action is registered.
    pub fn find(&self, name: &String, keys: &[KeyId]) -> (r: Option<usize>)
        requires
            self.wf(),
        ensures
            match r {
                Some(h) => names_action(self@, h as int, name@, keys@.to_set()),
                None => !is_registered(self@, name@, keys@.to_set()),
            },
    {
        let ghost wanted = keys@.to_set();
        if keys.len() == 0 {
            proof {
                assert forall|h: int| !names_action(self@, h, name@, wanted) by {
                    if names_action(self@, h, name@, wanted) {
                        assert(is_live(self@, h));
                        let k = choose|k: KeyId| self@[h].unwrap().last_press.contains_key(k);
                        assert(wanted.contains(k));
                    }
                }
            }
            return None;
        }
        let first = keys[0];
        assert(keys@.contains(first));
        assert(wanted.contains(first));
        match self.reverse_lookup.get(&first) {
            None => {
                proof {
                    assert forall|h: int| !names_action(self@, h, name@, wanted) by {
                        if names_action(self@, h, name@, wanted) {
                            assert(references(self@, h, first));
                        }
                    }
                }
                None
            },
            Some(list) => {
                let mut i: usize = 0;
                while i < list.len()
                    invariant
                        i <= list.len(),
                        self.wf(),
                        wanted == keys@.to_set(),
                        wanted.contains(first),
                        self.reverse_lookup@.contains_key(first),
                        *list == self.reverse_lookup@[first],
                        forall|j: int|
                            0 <= j < i ==> !names_action(
                                self@,
                                #[trigger] list@[j] as int,
                                name@,
                                wanted,
                            ),
                    decreases list.len() - i,
                {
                    let h = list[i];
                    assert(references(self@, list@[i as int] as int, first));
                    match &self.slots[h] {
                        Some(a) => {
                            if *a.name() == *name && a.has_key_set(keys) {
                                return Some(h);
                            }
                        },
                        None => {},
                    }
                    i += 1;
                }
                proof {
                    assert forall|h: int| !names_action(self@, h, name@, wanted) by {
                        if names_action(self@, h, name@, wanted) {
                            assert(references(self@, h, first));
                            assert(lists(list@, h));
                            let j = choose|j: int|
                                0 <= j < list@.len() && #[trigger] list@[j] as int == h;
                            assert(!names_action(self@, list@[j] as int, name@, wanted));
                        }
                    }
                }
                None
            },
        }
    }

    /// Registers the action `name` over the keys of `keys`, as of time `now`,
    /// and returns its handle. An empty list of keys is rejected, and so is an
    /// action that is registered already: one of the same name over the same
    /// set of keys, in whatever order they are given.
    pub fn register(&mut self, name: &String, keys: &[KeyId], now: u64) -> (r: Result<
        usize,
        Error,
    >)
        requires
            old(self).wf(),
        ensures
            final(self).wf(),
            match r {
                Ok(h) => {
                    &&& keys@.len() > 0
                    &&& !is_registered(old(self)@, name@, keys@.to_set())
                    &&& h == old(self)@.len()
                    &&& final(self)@ == old(self)@.push(
                        Some(ActionView::fresh(name@, keys@.to_set(), now as int)),
                    )
                },
                Err(Error::EmptyKeySet) => keys@.len() == 0 && final(self)@ == old(self)@,
                Err(Error::ActionAlreadyExists) => {
                    &&& keys@.len() > 0
                    &&& is_registered(old(self)@, name@, keys@.to_set())
                    &&& final(self)@ == old(self)@
                },
                Err(_) => false,
            },
    {
        if keys.len() == 0 {
            return Err(Error::EmptyKeySet);
        }
        if self.find(name, keys).is_some() {
            return Err(Error::ActionAlreadyExists);
        }
        let ghost before = self@;
        let ghost earlier = self.reverse_lookup@;
        let ghost fresh = ActionView::fresh(name@, keys@.to_set(), now as int);
        let action = Action::new(name, keys, now);
        let own = action.key_ids();
        let h = self.slots.len();
        self.slots.push(Some(action));
        let ghost slots = self.slots@;
        proof {
            assert(self@ =~= before.push(Some(fresh)));
            assert(fresh.keys() =~= keys@.to_set());
            assert(keys@.to_set().contains(keys@[0]));
            assert(fresh.last_press.contains_key(keys@[0]));
            assert(valid_actions(self@)) by {
                assert forall|h1: int, h2: int|
                    #![trigger is_live(self@, h1), is_live(self@, h2)]
                    is_live(self@, h1) && is_live(self@, h2) && self@[h1].unwrap().name
                        == self@[h2].unwrap().name && self@[h1].unwrap().keys()
                        == self@[h2].unwrap().keys() implies h1 == h2 by {
                    if h1 != h2 {
                        if h1 == h {
                            assert(names_action(before, h2, name@, keys@.to_set()));
                        } else if h2 == h {
                            assert(names_action(before, h1, name@, keys@.to_set()));
                        } else {
                            assert(is_live(before, h1) && is_live(before, h2));
                        }
                    }
                }
                assert forall|x: int| #[trigger] is_live(self@, x) implies self@[x].unwrap().has_keys() by {
                    if x < h {
                        assert(is_live(before, x));
                    }
                }
            }
        }
        let mut i: usize = 0;
        while i < own.len()
            invariant
                i <= own.len(),
                own@.no_duplicates(),
                self.slots@ == slots,
                index_extended(earlier, self.reverse_lookup@, own@.take(i as int), h),
            decreases own.len() - i,
        {
            let k = own[i];
            let ghost done = own@.take(i as int);
            let ghost middle = self.reverse_lookup@;
            assert(!done.contains(k));
            assert(entry_extended(earlier, middle, done, h, k));
            let mut list = match self.reverse_lookup.remove(&k) {
                Some(l) => l,
                None => Vec::new(),
            };
            assert(list@ == entry(earlier, k));
            list.push(h);
            self.reverse_lookup.insert(k, list);
            proof {
                let later = self.reverse_lookup@;
                let next = own@.take(i + 1);
                assert(next =~= done.push(k));
                assert forall|x: KeyId| #[trigger]
                    entry_extended(earlier, later, next, h, x) by {
                    assert(entry_extended(earlier, middle, done, h, x));
                    if x == k {
                        assert(next[i as int] == k);
                    } else {
                        assert(entry(later, x) == entry(middle, x));
                        if done.contains(x) {
                            let j = choose|j: int| 0 <= j < done.len() && done[j] == x;
                            assert(next[j] == x);
                        }
                        if next.contains(x) {
                            let j = choose|j: int| 0 <= j < next.len() && next[j] == x;
                            assert(done[j] == x);
                        }
                    }
                }
            }
            i += 1;
        }
        proof {
            assert(own@.take(own.len() as int) =~= own@);
            lemma_index_extended(before, fresh, earlier, self.reverse_lookup@, own@, h);
        }
        Ok(h)
    }

    /// The keys of `keys` that are new to the registry: those that no
    /// registered action has yet. These, and only these, need a callback
    /// installed when an action over `keys` is registered.
    pub fn keys_first_seen(&self, keys: &[KeyId]) -> (r: Vec<KeyId>)
        requires
            self.wf(),
        ensures
            r@ == first_seen(self@, keys@),
    {
        let mut out: Vec<KeyId> = Vec::new();
        let mut i: usize = 0;
        while i < keys.len()
            invariant
                i <= keys.len(),
                self.wf(),
                out@ == first_seen(self@, keys@.take(i as int)),
            decreases keys.len() - i,
        {
            let ghost upto = keys@.take(i + 1);
            assert(upto.drop_last() =~= keys@.take(i as int));
            assert(upto.last() == keys[i as int]);
            if !self.uses_key(keys[i]) && !holds_key(out.as_slice(), keys[i]) {
                out.push(keys[i]);
            }
            i += 1;
        }
        assert(keys@.take(keys.len() as int) =~= keys@);
        out
    }

    /// Records a press of `key` seen at time `now` in every action that has
    /// the key, and returns the handles of those actions in registration
    /// order. A key that no action has changes nothing and gives no handles.
    pub fn record_key_press(&mut self, key: KeyId, now: u64) -> (handles: Vec<usize>)
        requires
            old(self).wf(),
        ensures
            final(self).wf(),
            final(self)@ == after_key_press(old(self)@, key, now as int),
            ascending(handles@),
            forall|h: int| lists(handles@, h) <==> references(old(self)@, h, key),
    {
        let ghost before = self@;
        let ghost after = after_key_press(before, key, now as int);
        let ghost index = self.reverse_lookup@;
        let handles: Vec<usize> = match self.reverse_lookup.get(&key) {
            Some(list) => list.clone(),
            None => Vec::new(),
        };
        proof {
            assert(handles@ =~= entry(index, key));
            assert forall|h: int| lists(handles@, h) <==> references(before, h, key) by {
                if lists(handles@, h) {
                    let j = choose|j: int|
                        0 <= j < handles@.len() && #[trigger] handles@[j] as int == h;
                    assert(references(before, index[key]@[j] as int, key));
                }
            }
        }
        let mut i: usize = 0;
        while i < handles.len()
            invariant
                i <= handles.len(),
                self.reverse_lookup@ == index,
                slots_wf(self.slots@),
                self@.len() == before.len(),
                valid_actions(before),
                index_matches(before, index),
                after == after_key_press(before, key, now as int),
                ascending(handles@),
                forall|j: int|
                    0 <= j < handles@.len() ==> references(
                        before,
                        #[trigger] handles@[j] as int,
                        key,
                    ),
                forall|x: int|
                    0 <= x < before.len() ==> #[trigger] self@[x] == if lists(
                        handles@.take(i as int),
                        x,
                    ) {
                        after[x]
                    } else {
                        before[x]
                    },
            decreases handles.len() - i,
        {
            let h = handles[i];
            let ghost done = handles@.take(i as int);
            let ghost middle = self@;
            let ghost middle_slots = self.slots@;
            assert(references(before, handles@[i as int] as int, key));
            assert(!lists(done, h as int)) by {
                if lists(done, h as int) {
                    let j = choose|j: int| 0 <= j < done.len() && #[trigger] done[j] as int == h;
                    assert(handles@[j] < handles@[i as int]);
                }
            }
            assert(middle[h as int] == before[h as int]);
            match &mut self.slots[h] {
                Some(a) => {
                    a.press_key(key, now);
                },
                None => {},
            }
            proof {
                let next = handles@.take(i + 1);
                assert(next =~= done.push(h));
                assert(self.slots@.len() == middle_slots.len());
                assert forall|x: int| 0 <= x < before.len() implies #[trigger] self@[x] == if lists(
                    next,
                    x,
                ) {
                    after[x]
                } else {
                    before[x]
                } by {
                    if x == h {
                        assert(next[i as int] as int == x);
                    } else {
                        assert(self.slots@[x] == middle_slots[x]);
                        assert(self@[x] == middle[x]);
                        if lists(done, x) {
                            let j = choose|j: int|
                                0 <= j < done.len() && #[trigger] done[j] as int == x;
                            assert(next[j] as int == x);
                        }
                        if lists(next, x) {
                            let j = choose|j: int|
                                0 <= j < next.len() && #[trigger] next[j] as int == x;
                            assert(done[j] as int == x);
                        }
                    }
                }
            }
            i += 1;
        }
        proof {
            assert(handles@.take(handles.len() as int) =~= handles@);
            assert forall|x: int| 0 <= x < before.len() implies self@[x] == after[x] by {
                if !lists(handles@, x) {
                    assert(!references(before, x, key));
                }
            }
            assert(self@ =~= after);
            assert(same_shape(before, after)) by {
                assert forall|x: int| 0 <= x < before.len() implies match #[trigger] before[x] {
                    Some(a) => after[x] is Some && after[x].unwrap().name == a.name
                        && after[x].unwrap().keys() == a.keys(),
                    None => after[x] is None,
                } by {
                    match before[x] {
                        Some(a) => {
                            assert(a.pressed(key, now as int).keys() =~= a.keys());
                        },
                        None => {},
                    }
                }
            }
            lemma_same_shape(before, after, index);
        }
        handles
    }

    /// The names of the actions that fire on a press of `key` at time `now`,
    /// in registration order: those that have the key and whose keys were all
    /// pressed less than `min_elapsed_time` nanoseconds ago. The press itself
    /// is taken to be recorded already. An action fires each time this holds;
    /// no note is kept of its having fired before.
    pub fn names_fired(&self, key: KeyId, now: u64, min_elapsed_time: u64) -> (names: Vec<String>)
        requires
            self.wf(),
        ensures
            names.deep_view() == fired(self@, key, now as int, min_elapsed_time as int),
    {
        let ghost actions = self@;
        let ghost t = now as int;
        let ghost w = min_elapsed_time as int;
        let mut names: Vec<String> = Vec::new();
        match self.reverse_lookup.get(&key) {
            None => {
                proof {
                    lemma_fired_skip(actions, key, t, w, 0, actions.len());
                    assert(names.deep_view() =~= fired(actions, key, t, w));
                }
            },
            Some(list) => {
                let ghost mut bound: nat = 0;
                let mut i: usize = 0;
                assert(names.deep_view() =~= fired_among(actions, key, t, w, 0));
                while i < list.len()
                    invariant
                        i <= list.len(),
                        self.wf(),
                        actions == self@,
                        t == now as int,
                        w == min_elapsed_time as int,
                        self.reverse_lookup@.contains_key(key),
                        *list == self.reverse_lookup@[key],
                        bound <= actions.len(),
                        i > 0 ==> bound == list@[i - 1] + 1,
                        i == 0 ==> bound == 0,
                        names.deep_view() == fired_among(actions, key, t, w, bound),
                    decreases list.len() - i,
                {
                    let h = list[i];
                    assert(references(actions, list@[i as int] as int, key));
                    proof {
                        assert forall|x: int| bound <= x < h implies !references(
                            actions,
                            x,
                            key,
                        ) by {
                            if references(actions, x, key) {
                                assert(lists(list@, x));
                                let j = choose|j: int|
                                    0 <= j < list@.len() && #[trigger] list@[j] as int == x;
                                if j < i {
                                    if j < i - 1 {
                                        assert(list@[j] < list@[i - 1]);
                                    }
                                } else if j > i {
                                    assert(list@[i as int] < list@[j]);
                                }
                            }
                        }
                        if i > 0 {
                            assert(list@[i - 1] < list@[i as int]);
                        }
                        lemma_fired_skip(actions, key, t, w, bound, h as nat);
                    }
                    let ghost earlier = names.deep_view();
                    assert(earlier == fired_among(actions, key, t, w, h as nat));
                    match &self.slots[h] {
                        Some(a) => {
                            assert(actions[h as int] == Some(a@));
                            if a.is_pressed(now, min_elapsed_time) {
                                names.push(a.name().clone());
                                assert(names.deep_view() =~= earlier.push(a@.name));
                            }
                        },
                        None => {},
                    }
                    proof {
                        bound = (h + 1) as nat;
                    }
                    i += 1;
                }
                proof {
                    assert forall|x: int| bound <= x < actions.len() implies !references(
                        actions,
                        x,
                        key,
                    ) by {
                        if references(actions, x, key) {
                            assert(lists(list@, x));
                            let j = choose|j: int|
                                0 <= j < list@.len() && #[trigger] list@[j] as int == x;
                            if j < list@.len() - 1 {
                                assert(list@[j] < list@[list@.len() - 1]);
                            }
                        }
                    }
                    lemma_fired_skip(actions, key, t, w, bound, actions.len());
                }
            },
        }
        names
    }

    /// Removes the action `name` over the keys of `keys`, whatever their order
    /// there, and returns the keys that no remaining action has: the keys
    /// whose callbacks are no longer needed. The entry of each such key is
    /// gone from the reverse lookup.
    pub fn unregister(&mut self, name: &String, keys: &[KeyId]) -> (r: Result<Vec<KeyId>, Error>)
        requires
            old(self).wf(),
        ensures
            final(self).wf(),
            match r {
                Ok(orphans) => {
                    &&& is_registered(old(self)@, name@, keys@.to_set())
                    &&& final(self)@ == old(self)@.update(
                        handle_of(old(self)@, name@, keys@.to_set()),
                        None,
                    )
                    &&& orphans@.no_duplicates()
                    &&& forall|k: KeyId|
                        orphans@.contains(k) <==> keys@.contains(k) && !key_in_use(
                            final(self)@,
                            k,
                        )
                },
                Err(Error::ActionDoesNotExist) => {
                    &&& !is_registered(old(self)@, name@, keys@.to_set())
                    &&& final(self)@ == old(self)@
                },
                Err(_) => false,
            },
    {
        let ghost before = self@;
        let ghost earlier = self.reverse_lookup@;
        let ghost wanted = keys@.to_set();
        let h = match self.find(name, keys) {
            Some(h) => h,
            None => {
                return Err(Error::ActionDoesNotExist);
            },
        };
        proof {
            let chosen = handle_of(before, name@, wanted);
            assert(names_action(before, chosen, name@, wanted));
            assert(is_live(before, h as int) && is_live(before, chosen));
            assert(chosen == h);
        }
        let own: Vec<KeyId> = match &self.slots[h] {
            Some(a) => a.key_ids(),
            None => Vec::new(),
        };
        assert(own@.to_set() == wanted);
        self.slots[h] = None;
        let ghost slots = self.slots@;
        let ghost after = before.update(h as int, None);
        proof {
            assert(self@ =~= after);
            assert(valid_actions(after)) by {
                assert forall|x: int| #[trigger] is_live(after, x) implies after[x].unwrap().has_keys() by {
                    assert(is_live(before, x));
                }
                assert forall|h1: int, h2: int|
                    #![trigger is_live(after, h1), is_live(after, h2)]
                    is_live(after, h1) && is_live(after, h2) && after[h1].unwrap().name
                        == after[h2].unwrap().name && after[h1].unwrap().keys()
                        == after[h2].unwrap().keys() implies h1 == h2 by {
                    assert(is_live(before, h1) && is_live(before, h2));
                }
            }
        }
        let mut orphans: Vec<KeyId> = Vec::new();
        let mut i: usize = 0;
        while i < own.len()
            invariant
                i <= own.len(),
                own@.no_duplicates(),
                own@.to_set() == before[h as int].unwrap().keys(),
                is_live(before, h as int),
                index_matches(before, earlier),
                self.slots@ == slots,
                index_reduced(earlier, self.reverse_lookup@, own@.take(i as int), h),
                orphans@.no_duplicates(),
                forall|k: KeyId|
                    orphans@.contains(k) <==> own@.take(i as int).contains(k)
                        && !self.reverse_lookup@.contains_key(k),
            decreases own.len() - i,
        {
            let k = own[i];
            let ghost done = own@.take(i as int);
            let ghost next = own@.take(i + 1);
            let ghost middle = self.reverse_lookup@;
            let ghost found = orphans@;
            proof {
                assert(next =~= done.push(k));
                assert(!done.contains(k));
                assert(entry_reduced(earlier, middle, done, h, k));
                assert(own@.to_set().contains(k));
                assert(references(before, h as int, k));
                assert(lists(earlier[k]@, h as int));
            }
            match self.reverse_lookup.remove(&k) {
                Some(list) => {
                    let mut list = list;
                    let ghost full = list@;
                    assert(full == entry(earlier, k));
                    let mut at: usize = 0;
                    while at < list.len() && list[at] != h
                        invariant
                            at <= list.len(),
                            list@ == full,
                            lists(full, h as int),
                            forall|j: int| 0 <= j < at ==> full[j] != h,
                        decreases list.len() - at,
                    {
                        at += 1;
                    }
                    proof {
                        let j = choose|j: int| 0 <= j < full.len() && #[trigger] full[j] as int == h;
                        assert(at < list.len());
                        lemma_without(full, h, at as int);
                    }
                    list.remove(at);
                    assert(list@ == without(entry(earlier, k), h));
                    if list.len() == 0 {
                        orphans.push(k);
                        assert(entry(self.reverse_lookup@, k) =~= list@);
                    } else {
                        self.reverse_lookup.insert(k, list);
                        assert(entry(self.reverse_lookup@, k) == list@);
                    }
                    assert(next[i as int] == k);
                    assert(entry_reduced(earlier, self.reverse_lookup@, next, h, k));
                },
                None => {
                    assert(false);
                },
            }
            proof {
                let later = self.reverse_lookup@;
                assert forall|x: KeyId| #[trigger] entry_reduced(earlier, later, next, h, x) by {
                    assert(entry_reduced(earlier, middle, done, h, x));
                    if x == k {
                        assert(next[i as int] == k);
                    } else {
                        assert(entry(later, x) == entry(middle, x));
                        if done.contains(x) {
                            let j = choose|j: int| 0 <= j < done.len() && done[j] == x;
                            assert(next[j] == x);
                        }
                        if next.contains(x) {
                            let j = choose|j: int| 0 <= j < next.len() && next[j] == x;
                            assert(done[j] == x);
                        }
                    }
                }
                assert forall|x: KeyId|
                    orphans@.contains(x) <==> next.contains(x) && !later.contains_key(x) by {
                    if x == k {
                        assert(next[i as int] == k);
                        if !later.contains_key(k) {
                            assert(orphans@[orphans@.len() - 1] == k);
                        }
                        if orphans@.contains(k) {
                            let j = choose|j: int| 0 <= j < orphans@.len() && orphans@[j] == k;
                            if later.contains_key(k) {
                                assert(found[j] == k);
                                assert(found.contains(k));
                            }
                        }
                    } else {
                        assert(later.contains_key(x) == middle.contains_key(x));
                        if done.contains(x) {
                            let j = choose|j: int| 0 <= j < done.len() && done[j] == x;
                            assert(next[j] == x);
                        }
                        if next.contains(x) {
                            let j = choose|j: int| 0 <= j < next.len() && next[j] == x;
                            assert(done[j] == x);
                        }
                        if found.contains(x) {
                            let j = choose|j: int| 0 <= j < found.len() && found[j] == x;
                            assert(orphans@[j] == x);
                        }
                        if orphans@.contains(x) {
                            let j = choose|j: int| 0 <= j < orphans@.len() && orphans@[j] == x;
                            assert(found[j] == x);
                        }
                    }
                }
                assert(!found.contains(k));
            }
            i += 1;
        }
        proof {
            assert(own@.take(own.len() as int) =~= own@);
            lemma_index_reduced(before, earlier, self.reverse_lookup@, own@, h);
            assert forall|k: KeyId|
                orphans@.contains(k) <==> keys@.contains(k) && !key_in_use(self@, k) by {
                assert(own@.to_set().contains(k) == own@.contains(k));
                assert(keys@.to_set().contains(k) == keys@.contains(k));
                if self.reverse_lookup@.contains_key(k) {
                    assert(references(self@, self.reverse_lookup@[k]@[0] as int, k));
                }
            }
        }
        Ok(orphans)
    }
}

} // verus!
