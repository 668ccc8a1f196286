//! Pid-keyed hash collections.
//!
//! The maps and sets of this crate hash with `fxhash::FxHasher`. Verus models a std
//! `HashMap` as a `Map` and a `HashSet` as a `Set`, but only trusts that model for the
//! default hasher. The functions below restate, for the Fx collections, what the std
//! documentation promises of each operation the crate uses. They are not verified.

use crate::harvest::Pid;
use fxhash::{FxHashMap, FxHashSet};
use vstd::prelude::*;

verus! {

/// The hasher of the `fxhash` crate: a deterministic, unseeded word hasher.
#[verifier::external_type_specification]
#[verifier::external_body]
pub struct ExFxHasher(fxhash::FxHasher);

/// The std hasher factory that `fxhash` instantiates with `FxHasher`.
#[verifier::external_type_specification]
#[verifier::external_body]
#[verifier::reject_recursive_types(H)]
pub struct ExBuildHasherDefault<H>(std::hash::BuildHasherDefault<H>);

/// `HashMap::get`: a reference to the value stored under `key`, or `None` if the
/// map has no such key.
#[verifier::external_body]
pub(crate) fn map_get<'a, V>(map: &'a FxHashMap<Pid, V>, key: Pid) -> (found: Option<&'a V>)
    ensures
        found == (if map@.contains_key(key) {
            Some(&map@[key])
        } else {
            None
        }),
{
    map.get(&key)
}

/// `HashMap::insert`: afterwards `key` maps to `value` and every other key is
/// untouched. A value previously stored under `key` is dropped.
#[verifier::external_body]
pub(crate) fn map_insert<V>(map: &mut FxHashMap<Pid, V>, key: Pid, value: V)
    ensures
        final(map)@ == old(map)@.insert(key, value),
{
    map.insert(key, value);
}

/// `HashMap::keys`, collected: every key of the map exactly once, in the order in
/// which the map happens to be walked. Nothing is promised about that order.
#[verifier::external_body]
pub(crate) fn map_keys<V>(map: &FxHashMap<Pid, V>) -> (keys: Vec<Pid>)
    ensures
        keys@.no_duplicates(),
        keys@.to_set() == map@.dom(),
{
    map.keys().copied().collect()
}

/// `HashSet::clone`: a set with the same members.
#[verifier::external_body]
pub(crate) fn set_clone(set: &FxHashSet<Pid>) -> (copy: FxHashSet<Pid>)
    ensures
        copy@ == set@,
{
    set.clone()
}

/// `HashSet::contains`: whether `pid` is a member.
#[verifier::external_body]
pub(crate) fn set_contains(set: &FxHashSet<Pid>, pid: Pid) -> (found: bool)
    ensures
        found == set@.contains(pid),
{
    set.contains(&pid)
}

/// `HashSet::insert`: afterwards `pid` is a member; the other members are untouched.
#[verifier::external_body]
pub(crate) fn set_insert(set: &mut FxHashSet<Pid>, pid: Pid)
    ensures
        final(set)@ == old(set)@.insert(pid),
{
    set.insert(pid);
}

/// `HashSet::remove`: afterwards `pid` is no member; the other members are
/// untouched. Returns whether `pid` was a member before.
#[verifier::external_body]
pub(crate) fn set_remove(set: &mut FxHashSet<Pid>, pid: Pid) -> (was_member: bool)
    ensures
        was_member == old(set)@.contains(pid),
        final(set)@ == old(set)@.remove(pid),
{
    set.remove(&pid)
}

} // verus!
