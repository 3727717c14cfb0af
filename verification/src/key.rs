//! Key identifiers, key-name parsing and small operations on lists of keys.
//!
//! The matching logic never looks inside a key code of the hook library. It
//! works on `KeyId`, an integer that stands for one physical key; a `Key`
//! pairs that integer with the hook library's code, which is only ever handed
//! back to the hook library.

use livesplit_hotkey::KeyCode;
use std::str::FromStr;
use vstd::prelude::*;

verus! {

/// Identifies one physical key: the position of its code among the key codes
/// that the hook library knows. Two keys are the same key exactly when their
/// identifiers are equal; left and right variants of a key are different keys.
pub type KeyId = u32;

#[verifier::external_type_specification]
#[verifier::external_body]
pub struct ExKeyCode(KeyCode);

/// A parsed key: its identifier together with the hook library's code for it.
#[derive(Clone, Copy)]
pub struct Key {
    id: KeyId,
    code: KeyCode,
}

impl Key {
    /// The identifier of this key.
    pub closed spec fn spec_id(&self) -> KeyId {
        self.id
    }

    /// The identifier of this key.
    #[verifier::when_used_as_spec(spec_id)]
    pub fn id(&self) -> (r: KeyId)
        ensures
            r == self.spec_id(),
    {
        self.id
    }

    /// The hook library's code for this key.
    pub(crate) fn code(&self) -> (code: KeyCode)
        ensures
            code == self.spec_code(),
    {
        self.code
    }

    /// The hook library's code for this key: the one that the name the key
    /// was parsed from denotes.
    pub(crate) closed spec fn spec_code(&self) -> KeyCode {
        self.code
    }
}

/// The identifier of the key that a name denotes in the hook library's
/// canonical name table (`"ControlLeft"`, `"KeyA"`, `"F1"`, ...), or `None`
/// where the table has no such name.
pub uninterp spec fn key_id_of_name(name: Seq<char>) -> Option<KeyId>;

/// Looks a key name up with `KeyCode::from_str` and numbers the code it finds
/// by its position in `KeyCode`. The contract only gives that outcome a name:
/// it is taken to be a function of the name alone, since the table and the
/// order of the codes are fixed in the hook library's source.
#[verifier::external_body]
fn lookup_key(name: &str) -> (r: Option<Key>)
    ensures
        match r {
            Some(k) => key_id_of_name(name@) == Some(k.id()),
            None => key_id_of_name(name@) is None,
        },
{
    match KeyCode::from_str(name) {
        Ok(code) => Some(Key { id: code as u32, code }),
        Err(_) => None,
    }
}

/// The identifiers of a list of parsed keys, in order.
pub open spec fn key_ids(keys: Seq<Key>) -> Seq<KeyId> {
    Seq::new(keys.len(), |i: int| keys[i].id())
}

/// Whether every name in the list denotes a key.
pub open spec fn all_names_known(names: Seq<Seq<char>>) -> bool {
    forall|i: int| 0 <= i < names.len() ==> (#[trigger] key_id_of_name(names[i])) is Some
}

/// The identifiers that a list of names denotes, in order. Meaningful where
/// `all_names_known` holds.
pub open spec fn ids_of_names(names: Seq<Seq<char>>) -> Seq<KeyId> {
    Seq::new(names.len(), |i: int| key_id_of_name(names[i]).unwrap())
}

/// Parses one key name. `None` means the name denotes no key.
pub fn parse_key(name: &str) -> (r: Option<Key>)
    ensures
        match r {
            Some(k) => key_id_of_name(name@) == Some(k.id()),
            None => key_id_of_name(name@) is None,
        },
{
    lookup_key(name)
}

/// Parses an ordered list of key names. The list parses as a whole or not at
/// all: one name that denotes no key makes the result `None`.
pub fn parse_key_names(names: &[String]) -> (r: Option<Vec<Key>>)
    ensures
        match r {
            Some(keys) => all_names_known(names.deep_view()) && key_ids(keys@) == ids_of_names(
                names.deep_view(),
            ),
            None => !all_names_known(names.deep_view()),
        },
{
    let ghost all = names.deep_view();
    let mut keys: Vec<Key> = Vec::new();
    let mut i: usize = 0;
    while i < names.len()
        invariant
            i <= names.len(),
            all == names.deep_view(),
            keys.len() == i,
            forall|j: int|
                0 <= j < i ==> (#[trigger] key_id_of_name(all[j])) == Some(keys[j].id()),
        decreases names.len() - i,
    {
        assert(all[i as int] == names[i as int]@);
        match lookup_key(names[i].as_str()) {
            Some(key) => {
                keys.push(key);
            },
            None => {
                return None;
            },
        }
        i += 1;
    }
    assert(key_ids(keys@) =~= ids_of_names(all));
    Some(keys)
}

/// The identifiers of a list of parsed keys, in order.
pub fn ids_of_keys(keys: &Vec<Key>) -> (ids: Vec<KeyId>)
    ensures
        ids@ == key_ids(keys@),
{
    let mut ids: Vec<KeyId> = Vec::new();
    let mut i: usize = 0;
    while i < keys.len()
        invariant
            i <= keys.len(),
            ids.len() == i,
            forall|j: int| 0 <= j < i ==> ids[j] == keys[j].id(),
        decreases keys.len() - i,
    {
        ids.push(keys[i].id());
        i += 1;
    }
    assert(ids@ =~= key_ids(keys@));
    ids
}

/// The first key of `keys` with the identifier `id`, or `None` where none has
/// it.
pub fn find_key(keys: &Vec<Key>, id: KeyId) -> (r: Option<Key>)
    ensures
        match r {
            Some(k) => k.id() == id && keys@.contains(k),
            None => !key_ids(keys@).contains(id),
        },
{
    let mut i: usize = 0;
    while i < keys.len()
        invariant
            i <= keys.len(),
            forall|j: int| 0 <= j < i ==> keys[j].id() != id,
        decreases keys.len() - i,
    {
        if keys[i].id() == id {
            return Some(keys[i]);
        }
        i += 1;
    }
    None
}

/// Whether `key` occurs in `keys`.
pub fn holds_key(keys: &[KeyId], key: KeyId) -> (r: bool)
    ensures
        r == keys@.contains(key),
{
    let mut i: usize = 0;
    while i < keys.len()
        invariant
            i <= keys.len(),
            forall|j: int| 0 <= j < i ==> keys[j] != key,
        decreases keys.len() - i,
    {
        if keys[i] == key {
            return true;
        }
        i += 1;
    }
    false
}

/// Whether every key of `a` occurs in `b`.
pub fn keys_within(a: &[KeyId], b: &[KeyId]) -> (r: bool)
    ensures
        r == a@.to_set().subset_of(b@.to_set()),
{
    let mut i: usize = 0;
    while i < a.len()
        invariant
            i <= a.len(),
            forall|j: int| 0 <= j < i ==> b@.contains(#[trigger] a[j]),
        decreases a.len() - i,
    {
        if !holds_key(b, a[i]) {
            assert(a@.to_set().contains(a[i as int]));
            return false;
        }
        i += 1;
    }
    true
}

/// Whether two lists of keys denote the same set of keys. Order and
/// repetition do not matter.
pub fn same_key_set(a: &[KeyId], b: &[KeyId]) -> (r: bool)
    ensures
        r == (a@.to_set() == b@.to_set()),
{
    let r = keys_within(a, b) && keys_within(b, a);
    assert(r ==> a@.to_set() =~= b@.to_set());
    r
}

/// The keys of a list without repetitions, each at the place of its first
/// occurrence.
pub open spec fn distinct(keys: Seq<KeyId>) -> Seq<KeyId>
    decreases keys.len(),
{
    if keys.len() == 0 {
        Seq::empty()
    } else {
        let rest = distinct(keys.drop_last());
        if rest.contains(keys.last()) {
            rest
        } else {
            rest.push(keys.last())
        }
    }
}

/// `distinct` keeps exactly the keys of the list, each once.
pub proof fn lemma_distinct(keys: Seq<KeyId>)
    ensures
        distinct(keys).no_duplicates(),
        distinct(keys).len() <= keys.len(),
        forall|k: KeyId| distinct(keys).contains(k) <==> keys.contains(k),
        distinct(keys).to_set() == keys.to_set(),
    decreases keys.len(),
{
    if keys.len() > 0 {
        let front = keys.drop_last();
        lemma_distinct(front);
        let rest = distinct(front);
        assert forall|k: KeyId| distinct(keys).contains(k) <==> keys.contains(k) by {
            if keys.contains(k) {
                let i = choose|i: int| 0 <= i < keys.len() && keys[i] == k;
                if i < keys.len() - 1 {
                    assert(front[i] == k);
                    assert(front.contains(k));
                    assert(rest.contains(k));
                    let j = choose|j: int| 0 <= j < rest.len() && rest[j] == k;
                    assert(distinct(keys)[j] == k);
                } else {
                    if rest.contains(k) {
                    } else {
                        assert(distinct(keys)[rest.len() as int] == k);
                    }
                }
            }
            if distinct(keys).contains(k) {
                let j = choose|j: int| 0 <= j < distinct(keys).len() && distinct(keys)[j] == k;
                if j < rest.len() {
                    assert(rest[j] == k);
                    assert(rest.contains(k));
                    assert(front.contains(k));
                    let i = choose|i: int| 0 <= i < front.len() && front[i] == k;
                    assert(keys[i] == k);
                } else {
                    assert(keys[keys.len() - 1] == k);
                }
            }
        }
    }
    assert(distinct(keys).to_set() =~= keys.to_set());
}

/// Removes the repetitions from a list of keys, keeping each key at the place
/// of its first occurrence.
pub fn distinct_keys(keys: &[KeyId]) -> (r: Vec<KeyId>)
    ensures
        r@ == distinct(keys@),
{
    let mut out: Vec<KeyId> = Vec::new();
    let mut i: usize = 0;
    while i < keys.len()
        invariant
            i <= keys.len(),
            out@ == distinct(keys@.take(i as int)),
        decreases keys.len() - i,
    {
        let ghost before = keys@.take(i as int);
        let ghost upto = keys@.take(i + 1);
        assert(upto.drop_last() =~= before);
        assert(upto.last() == keys[i as int]);
        if !holds_key(out.as_slice(), keys[i]) {
            out.push(keys[i]);
        }
        i += 1;
    }
    assert(keys@.take(keys.len() as int) =~= keys@);
    out
}

} // verus!
