//! The set of nodes a path search still has to look at, kept in an `fnv::FnvHashSet`.
use vstd::prelude::*;
use fnv::{FnvHashSet, FnvHasher};
use std::hash::BuildHasherDefault;

verus! {

/// `fnv::FnvHasher`, the hasher of the set; nothing of it is read here.
#[verifier::external_type_specification]
#[verifier::external_body]
pub struct ExFnvHasher(FnvHasher);

/// `std::hash::BuildHasherDefault`, which builds the set's hashers; nothing of it is read
/// here.
#[verifier::external_type_specification]
#[verifier::external_body]
#[verifier::reject_recursive_types(H)]
pub struct ExBuildHasherDefault<H>(BuildHasherDefault<H>);

/// The numbers an FNV-hashed set holds.
pub uninterp spec fn open_items(s: FnvHashSet<u64>) -> Set<u64>;

/// `FnvHashSet::default`: the new set holds nothing.
#[verifier::external_body]
pub(crate) fn open_set_new() -> (r: FnvHashSet<u64>)
    ensures
        open_items(r) == Set::<u64>::empty(),
{
    FnvHashSet::default()
}

/// `HashSet::insert` on the FNV-hashed set: `k` is added, and the result says whether it
/// was new.
#[verifier::external_body]
pub(crate) fn open_set_insert(s: &mut FnvHashSet<u64>, k: u64) -> (r: bool)
    ensures
        open_items(*final(s)) == open_items(*old(s)).insert(k),
        r == !open_items(*old(s)).contains(k),
{
    s.insert(k)
}

/// `HashSet::remove` on the FNV-hashed set: `k` leaves, and the result says whether it was
/// there.
#[verifier::external_body]
pub(crate) fn open_set_remove(s: &mut FnvHashSet<u64>, k: u64) -> (r: bool)
    ensures
        open_items(*final(s)) == open_items(*old(s)).remove(k),
        r == open_items(*old(s)).contains(k),
{
    s.remove(&k)
}

/// `HashSet::is_empty` on the FNV-hashed set.
#[verifier::external_body]
pub(crate) fn open_set_is_empty(s: &FnvHashSet<u64>) -> (r: bool)
    ensures
        r <==> open_items(*s) == Set::<u64>::empty(),
{
    s.is_empty()
}

/// The members in the order `HashSet::iter` walks them. Which order that is depends on
/// the hash table's layout and is left unsaid: only that each member comes once.
#[verifier::external_body]
pub(crate) fn open_set_walk(s: &FnvHashSet<u64>) -> (r: Vec<u64>)
    ensures
        r@.no_duplicates(),
        r@.to_set() == open_items(*s),
{
    s.iter().copied().collect()
}

} // verus!
