//! Append-only registries: the model shared by the lookups that hand out
//! archetype ids and table ids.

use vstd::prelude::*;

verus! {

/// The id under which `key` is or will be registered in `keys`: its position
/// if it is there, the next free position if not.
pub open spec fn id_for<K>(keys: Seq<K>, key: K) -> int {
    if keys.contains(key) {
        keys.index_of(key)
    } else {
        keys.len() as int
    }
}

/// `keys` after `key` has been asked for: unchanged if it was there, with
/// `key` at the end if not.
pub open spec fn register<K>(keys: Seq<K>, key: K) -> Seq<K> {
    if keys.contains(key) {
        keys
    } else {
        keys.push(key)
    }
}

/// Ids are append-only: once `key` has been given an id, every later state
/// of the registry gives `key` the same id and gives that id to no other
/// key, and keys that are registered later get larger ids than all keys
/// registered before.
pub proof fn law_ids_are_append_only<K>(keys: Seq<K>, later: Seq<K>, key: K)
    requires
        keys.no_duplicates(),
        later.no_duplicates(),
        register(keys, key).is_prefix_of(later),
    ensures
        later.contains(key),
        id_for(later, key) == id_for(keys, key),
        forall|other: K| other != key ==> #[trigger] id_for(later, other) != id_for(keys, key),
        forall|other: K|
            !register(keys, key).contains(other) ==> #[trigger] id_for(later, other) >= register(
                keys,
                key,
            ).len(),
{
    let now = register(keys, key);
    let i = id_for(keys, key);
    assert(0 <= i < now.len() && now[i] == key) by {
        if keys.contains(key) {
        } else {
            assert(now[keys.len() as int] == key);
        }
    }
    assert(later[i] == now[i]);
    assert(later.contains(key));
    assert(later.index_of(key) == i);
    assert forall|other: K| other != key implies #[trigger] id_for(later, other) != i by {
        if later.contains(other) {
            let j = later.index_of(other);
            assert(later[j] == other);
        }
    }
    assert forall|other: K| !now.contains(other) implies #[trigger] id_for(later, other)
        >= now.len() by {
        if later.contains(other) {
            let j = later.index_of(other);
            if j < now.len() {
                assert(now[j] == later[j]);
                assert(now.contains(other));
            }
        }
    }
}

/// Asking for a key never disturbs what is registered: the old registry is
/// a prefix of the new one, and the new one still has no key twice.
pub proof fn lemma_register_extends<K>(keys: Seq<K>, key: K)
    requires
        keys.no_duplicates(),
    ensures
        keys.is_prefix_of(register(keys, key)),
        register(keys, key).no_duplicates(),
        register(keys, key).contains(key),
        0 <= id_for(keys, key) < register(keys, key).len(),
        register(keys, key)[id_for(keys, key)] == key,
{
    if !keys.contains(key) {
        assert(keys.push(key)[keys.len() as int] == key);
    }
}

} // verus!
