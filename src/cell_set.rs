//! Sets of cell keys, held in rustc_hash's `FxHashSet`.
use rustc_hash::{FxBuildHasher, FxHashSet};
use vstd::prelude::*;

verus! {

#[verifier::external_type_specification]
#[verifier::external_body]
pub struct ExFxBuildHasher(FxBuildHasher);

/// A set of cell keys (see `cell::key_of`).
pub type KeySet = FxHashSet<u64>;

/// An empty set of keys.
pub fn empty_key_set() -> (r: KeySet)
    ensures
        r@ == Set::<u64>::empty(),
{
    FxHashSet::default()
}

/// Relies on `HashSet::insert` under rustc_hash's `FxBuildHasher`, which builds
/// identical, unseeded hashers: afterwards the set holds exactly the old keys and `k`.
#[verifier::external_body]
pub(crate) fn insert_key(s: &mut KeySet, k: u64)
    ensures
        final(s)@ == old(s)@.insert(k),
{
    s.insert(k);
}

/// Relies on `HashSet::contains` under rustc_hash's `FxBuildHasher`: true exactly
/// when `k` is in the set.
#[verifier::external_body]
pub(crate) fn contains_key(s: &KeySet, k: u64) -> (r: bool)
    ensures
        r == s@.contains(k),
{
    s.contains(&k)
}

/// Relies on `HashSet::iter` under rustc_hash's `FxBuildHasher`: it yields every
/// key of the set once, in an order that the set's layout decides.
#[verifier::external_body]
pub(crate) fn keys_of(s: &KeySet) -> (r: Vec<u64>)
    ensures
        r@.to_set() == s@,
        r@.no_duplicates(),
{
    s.iter().copied().collect()
}

/// Relies on `HashSet::len`: the number of keys in the set.
#[verifier::external_body]
pub(crate) fn key_count(s: &KeySet) -> (r: usize)
    ensures
        r == s@.len(),
{
    s.len()
}

} // verus!
