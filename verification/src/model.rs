//! The mathematical model of the registered actions, and what follows from
//! it.
//!
//! The registered actions are modelled as the sequence of their slots, in the
//! order in which actions were registered: slot `h` holds the action with
//! handle `h`, or nothing once that action has been unregistered. Handles are
//! never reused, so ascending handles are registration order.

use crate::action::{lemma_pressed_after_press, ActionView};
use crate::key::KeyId;
use vstd::prelude::*;

verus! {

/// Whether slot `h` holds an action.
pub open spec fn is_live(actions: Seq<Option<ActionView>>, h: int) -> bool {
    0 <= h < actions.len() && actions[h] is Some
}

/// Whether slot `h` holds an action that has `key` among its keys.
pub open spec fn references(actions: Seq<Option<ActionView>>, h: int, key: KeyId) -> bool {
    is_live(actions, h) && actions[h].unwrap().last_press.contains_key(key)
}

/// Whether some registered action has `key` among its keys.
pub open spec fn key_in_use(actions: Seq<Option<ActionView>>, key: KeyId) -> bool {
    exists|h: int| references(actions, h, key)
}

/// Whether slot `h` holds the action `name` over exactly the keys `keys`.
pub open spec fn names_action(
    actions: Seq<Option<ActionView>>,
    h: int,
    name: Seq<char>,
    keys: Set<KeyId>,
) -> bool {
    is_live(actions, h) && actions[h].unwrap().name == name && actions[h].unwrap().keys() == keys
}

/// Whether the action `name` over exactly the keys `keys` is registered.
pub open spec fn is_registered(
    actions: Seq<Option<ActionView>>,
    name: Seq<char>,
    keys: Set<KeyId>,
) -> bool {
    exists|h: int| names_action(actions, h, name, keys)
}

/// The handle of the action `name` over the keys `keys`, where it is
/// registered.
pub open spec fn handle_of(
    actions: Seq<Option<ActionView>>,
    name: Seq<char>,
    keys: Set<KeyId>,
) -> int {
    choose|h: int| names_action(actions, h, name, keys)
}

/// What every registry satisfies: each registered action has at least one
/// key, and no two registered actions agree in both name and key set.
pub open spec fn valid_actions(actions: Seq<Option<ActionView>>) -> bool {
    &&& forall|h: int| #[trigger] is_live(actions, h) ==> actions[h].unwrap().has_keys()
    &&& forall|h1: int, h2: int|
        #![trigger is_live(actions, h1), is_live(actions, h2)]
        is_live(actions, h1) && is_live(actions, h2) && actions[h1].unwrap().name
            == actions[h2].unwrap().name && actions[h1].unwrap().keys()
            == actions[h2].unwrap().keys() ==> h1 == h2
}

/// Whether a list of handles is strictly ascending.
pub open spec fn ascending(handles: Seq<usize>) -> bool {
    forall|i: int, j: int| 0 <= i < j < handles.len() ==> handles[i] < handles[j]
}

/// Whether a list of handles holds the handle `h`.
pub open spec fn lists(handles: Seq<usize>, h: int) -> bool {
    exists|i: int| 0 <= i < handles.len() && #[trigger] handles[i] as int == h
}

/// The actions after a press of `key` was seen at time `now`: every action
/// that has the key records the press, and nothing else changes.
pub open spec fn after_key_press(
    actions: Seq<Option<ActionView>>,
    key: KeyId,
    now: int,
) -> Seq<Option<ActionView>> {
    Seq::new(
        actions.len(),
        |h: int|
            match actions[h] {
                Some(a) => Some(a.pressed(key, now)),
                None => None,
            },
    )
}

/// Whether the action in slot `h` fires on a press of `key` at time `now`: it
/// has the key, and every one of its keys was pressed less than `window`
/// nanoseconds ago.
pub open spec fn fires(
    actions: Seq<Option<ActionView>>,
    h: int,
    key: KeyId,
    now: int,
    window: int,
) -> bool {
    references(actions, h, key) && actions[h].unwrap().is_pressed(now, window)
}

/// The names of the actions among the first `n` slots that fire on a press of
/// `key` at time `now`, in registration order.
pub open spec fn fired_among(
    actions: Seq<Option<ActionView>>,
    key: KeyId,
    now: int,
    window: int,
    n: nat,
) -> Seq<Seq<char>>
    decreases n,
{
    if n == 0 {
        Seq::empty()
    } else {
        let earlier = fired_among(actions, key, now, window, (n - 1) as nat);
        if fires(actions, n - 1, key, now, window) {
            earlier.push(actions[n - 1].unwrap().name)
        } else {
            earlier
        }
    }
}

/// The names of the actions that fire on a press of `key` at time `now`, in
/// registration order. The press itself is taken to be recorded already.
pub open spec fn fired(
    actions: Seq<Option<ActionView>>,
    key: KeyId,
    now: int,
    window: int,
) -> Seq<Seq<char>> {
    fired_among(actions, key, now, window, actions.len())
}

/// The names of the actions among the first `n` slots, in registration
/// order.
pub open spec fn names_among(actions: Seq<Option<ActionView>>, n: nat) -> Seq<Seq<char>>
    decreases n,
{
    if n == 0 {
        Seq::empty()
    } else {
        let earlier = names_among(actions, (n - 1) as nat);
        match actions[n - 1] {
            Some(a) => earlier.push(a.name),
            None => earlier,
        }
    }
}

/// The names of the registered actions, in registration order.
pub open spec fn names_of(actions: Seq<Option<ActionView>>) -> Seq<Seq<char>> {
    names_among(actions, actions.len())
}

/// The keys of `keys` that no registered action has yet, each once, at the
/// place of its first occurrence.
pub open spec fn first_seen(actions: Seq<Option<ActionView>>, keys: Seq<KeyId>) -> Seq<KeyId>
    decreases keys.len(),
{
    if keys.len() == 0 {
        Seq::empty()
    } else {
        let rest = first_seen(actions, keys.drop_last());
        if key_in_use(actions, keys.last()) || rest.contains(keys.last()) {
            rest
        } else {
            rest.push(keys.last())
        }
    }
}

/// `first_seen` keeps exactly the keys of the list that are not in use, each
/// once.
pub proof fn lemma_first_seen(actions: Seq<Option<ActionView>>, keys: Seq<KeyId>)
    ensures
        first_seen(actions, keys).no_duplicates(),
        first_seen(actions, keys).len() <= keys.len(),
        forall|k: KeyId|
            first_seen(actions, keys).contains(k) <==> keys.contains(k) && !key_in_use(
                actions,
                k,
            ),
    decreases keys.len(),
{
    if keys.len() > 0 {
        let front = keys.drop_last();
        lemma_first_seen(actions, front);
        let rest = first_seen(actions, front);
        let all = first_seen(actions, keys);
        assert forall|k: KeyId| all.contains(k) <==> keys.contains(k) && !key_in_use(
            actions,
            k,
        ) by {
            if keys.contains(k) && !key_in_use(actions, k) {
                let i = choose|i: int| 0 <= i < keys.len() && keys[i] == k;
                if i < keys.len() - 1 {
                    assert(front[i] == k);
                    assert(front.contains(k));
                    assert(rest.contains(k));
                    let j = choose|j: int| 0 <= j < rest.len() && rest[j] == k;
                    assert(all[j] == k);
                } else if !rest.contains(k) {
                    assert(all[rest.len() as int] == k);
                } else {
                    let j = choose|j: int| 0 <= j < rest.len() && rest[j] == k;
                    assert(all[j] == k);
                }
            }
            if all.contains(k) {
                let j = choose|j: int| 0 <= j < all.len() && all[j] == k;
                if j < rest.len() {
                    assert(rest[j] == k);
                    assert(rest.contains(k));
                    assert(front.contains(k));
                    let i = choose|i: int| 0 <= i < front.len() && front[i] == k;
                    assert(keys[i] == k);
                } else {
                    assert(keys[keys.len() - 1] == k);
                }
            }
        }
    }
}

/// The identity of an action does not depend on the order in which its keys
/// are given: once the action `name` over the keys of `first` is entered, the
/// action `name` over the keys of `second` is registered too, whenever the two
/// lists hold the same keys. Registering it again is then refused.
pub proof fn lemma_key_order_is_immaterial(
    actions: Seq<Option<ActionView>>,
    name: Seq<char>,
    first: Seq<KeyId>,
    second: Seq<KeyId>,
    now: int,
)
    requires
        first.to_set() == second.to_set(),
    ensures
        is_registered(
            actions.push(Some(ActionView::fresh(name, first.to_set(), now))),
            name,
            second.to_set(),
        ),
{
    let entered = ActionView::fresh(name, first.to_set(), now);
    let after = actions.push(Some(entered));
    assert(entered.keys() =~= first.to_set());
    assert(names_action(after, actions.len() as int, name, second.to_set()));
}

/// A press of a key reaches every action that has the key, and nothing else:
/// each such action records the press for that key and keeps the times of its
/// other keys, and the actions without the key stay as they are.
pub proof fn lemma_press_reaches_every_action(
    actions: Seq<Option<ActionView>>,
    key: KeyId,
    now: int,
)
    ensures
        after_key_press(actions, key, now).len() == actions.len(),
        forall|h: int|
            references(actions, h, key) ==> {
                let a = actions[h].unwrap();
                let b = #[trigger] after_key_press(actions, key, now)[h].unwrap();
                &&& is_live(after_key_press(actions, key, now), h)
                &&& b.name == a.name
                &&& b.keys() == a.keys()
                &&& b.last_press[key] == now
                &&& forall|k: KeyId|
                    a.last_press.contains_key(k) && k != key ==> b.last_press[k]
                        == a.last_press[k]
            },
        forall|h: int|
            0 <= h < actions.len() && !references(actions, h, key) ==> #[trigger] after_key_press(
                actions,
                key,
                now,
            )[h] == actions[h],
{
    let after = after_key_press(actions, key, now);
    assert forall|h: int| references(actions, h, key) implies {
        let a = actions[h].unwrap();
        let b = #[trigger] after[h].unwrap();
        &&& is_live(after, h)
        &&& b.name == a.name
        &&& b.keys() == a.keys()
        &&& b.last_press[key] == now
        &&& forall|k: KeyId|
            a.last_press.contains_key(k) && k != key ==> b.last_press[k] == a.last_press[k]
    } by {
        let a = actions[h].unwrap();
        assert(a.pressed(key, now).keys() =~= a.keys());
    }
}

/// On a press of `key`, the action in slot `h` fires exactly when it has the
/// key, the window is not empty, and each of its other keys was last pressed
/// less than `window` nanoseconds before. So of two actions that share the
/// key, each fires or not by its own other keys.
pub proof fn lemma_fires_by_other_keys(
    actions: Seq<Option<ActionView>>,
    h: int,
    key: KeyId,
    now: int,
    window: int,
)
    ensures
        fires(after_key_press(actions, key, now), h, key, now, window) <==> references(
            actions,
            h,
            key,
        ) && 0 < window && forall|k: KeyId|
            actions[h].unwrap().last_press.contains_key(k) && k != key ==> now
                - actions[h].unwrap().last_press[k] < window,
{
    let after = after_key_press(actions, key, now);
    if 0 <= h < actions.len() && actions[h] is Some {
        let a = actions[h].unwrap();
        assert(after[h] == Some(a.pressed(key, now)));
        if a.last_press.contains_key(key) {
            lemma_pressed_after_press(a, key, now, window);
            assert(a.pressed(key, now).last_press.contains_key(key));
        }
    }
}

/// The names fired are exactly the names of the actions that fire.
pub proof fn lemma_fired_names(
    actions: Seq<Option<ActionView>>,
    key: KeyId,
    now: int,
    window: int,
    n: nat,
)
    requires
        n <= actions.len(),
    ensures
        forall|name: Seq<char>|
            fired_among(actions, key, now, window, n).contains(name) <==> exists|h: int|
                0 <= h < n && #[trigger] fires(actions, h, key, now, window)
                    && actions[h].unwrap().name == name,
    decreases n,
{
    if n > 0 {
        let m = (n - 1) as nat;
        lemma_fired_names(actions, key, now, window, m);
        let earlier = fired_among(actions, key, now, window, m);
        let all = fired_among(actions, key, now, window, n);
        assert forall|name: Seq<char>|
            all.contains(name) <==> exists|h: int|
                0 <= h < n && #[trigger] fires(actions, h, key, now, window)
                    && actions[h].unwrap().name == name by {
            if all.contains(name) {
                let j = choose|j: int| 0 <= j < all.len() && all[j] == name;
                if j < earlier.len() {
                    assert(earlier[j] == name);
                    assert(earlier.contains(name));
                    let h = choose|h: int|
                        0 <= h < m && #[trigger] fires(actions, h, key, now, window)
                            && actions[h].unwrap().name == name;
                    assert(0 <= h < n && fires(actions, h, key, now, window));
                } else {
                    assert(fires(actions, n - 1, key, now, window));
                }
            }
            if exists|h: int|
                0 <= h < n && #[trigger] fires(actions, h, key, now, window)
                    && actions[h].unwrap().name == name {
                let h = choose|h: int|
                    0 <= h < n && #[trigger] fires(actions, h, key, now, window)
                        && actions[h].unwrap().name == name;
                if h < m {
                    assert(earlier.contains(name));
                    let j = choose|j: int| 0 <= j < earlier.len() && earlier[j] == name;
                    assert(all[j] == name);
                } else {
                    assert(all[all.len() - 1] == name);
                }
            }
        }
    }
}

/// An action that has fired fires again on the next press of any of its keys,
/// as long as each of its keys was last pressed less than `window`
/// nanoseconds before that press: nothing is remembered of its having fired.
pub proof fn lemma_fires_again(
    actions: Seq<Option<ActionView>>,
    h: int,
    key: KeyId,
    now: int,
    again: KeyId,
    later: int,
    window: int,
)
    requires
        fires(after_key_press(actions, key, now), h, key, now, window),
        references(actions, h, again),
        forall|k: KeyId|
            actions[h].unwrap().last_press.contains_key(k) ==> later - after_key_press(
                actions,
                key,
                now,
            )[h].unwrap().last_press[k] < window,
    ensures
        fires(
            after_key_press(after_key_press(actions, key, now), again, later),
            h,
            again,
            later,
            window,
        ),
{
    let once = after_key_press(actions, key, now);
    let twice = after_key_press(once, again, later);
    let a = actions[h].unwrap();
    let b = once[h].unwrap();
    let c = twice[h].unwrap();
    assert(b == a.pressed(key, now));
    assert(b.last_press.dom() =~= a.last_press.dom());
    assert(c == b.pressed(again, later));
    assert(b.last_press.contains_key(again));
    assert(later - b.last_press[again] < window);
    assert forall|k: KeyId| #[trigger] c.last_press.contains_key(k) implies later
        - c.last_press[k] < window by {
        assert(a.last_press.contains_key(k));
    }
}

/// A press of a key that no registered action has is discarded: it changes
/// nothing and fires nothing.
pub proof fn lemma_unused_key_is_no_op(
    actions: Seq<Option<ActionView>>,
    key: KeyId,
    now: int,
    window: int,
)
    requires
        !key_in_use(actions, key),
    ensures
        after_key_press(actions, key, now) == actions,
        fired(actions, key, now, window) == Seq::<Seq<char>>::empty(),
{
    assert forall|h: int| 0 <= h < actions.len() implies after_key_press(actions, key, now)[h]
        == actions[h] by {
        assert(!references(actions, h, key));
    }
    assert(after_key_press(actions, key, now) =~= actions);
    assert forall|h: int| 0 <= h < actions.len() implies !references(actions, h, key) by {}
    lemma_fired_skip(actions, key, now, window, 0, actions.len());
}

/// Slots that hold no action with `key` contribute nothing to the names
/// fired.
pub proof fn lemma_fired_skip(
    actions: Seq<Option<ActionView>>,
    key: KeyId,
    now: int,
    window: int,
    from: nat,
    to: nat,
)
    requires
        from <= to,
        forall|x: int| from <= x < to ==> !references(actions, x, key),
    ensures
        fired_among(actions, key, now, window, to) == fired_among(actions, key, now, window, from),
    decreases to - from,
{
    if from < to {
        lemma_fired_skip(actions, key, now, window, from, (to - 1) as nat);
        assert(!references(actions, to - 1, key));
    }
}

} // verus!
