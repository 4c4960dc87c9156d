//! Sets of character indices, held in a hash set with the Fx hasher.

use rustc_hash::{FxBuildHasher, FxHashSet};
use vstd::prelude::*;

verus! {

/// `rustc_hash::FxBuildHasher`, the builder of the hasher of the hash sets
/// and hash maps of this library: a type of which nothing is known here.
#[verifier::external_type_specification]
#[verifier::external_body]
pub struct ExFxBuildHasher(FxBuildHasher);

/// `FxHashSet::default`: a set without elements.
#[verifier::external_body]
pub(crate) fn index_set_new() -> (s: FxHashSet<usize>)
    ensures
        s@ == Set::<usize>::empty(),
{
    FxHashSet::default()
}

/// `HashSet::insert` with the Fx hasher: the set holds `value` afterwards,
/// and the result says whether it was new.
#[verifier::external_body]
pub(crate) fn index_set_insert(s: &mut FxHashSet<usize>, value: usize) -> (fresh: bool)
    ensures
        final(s)@ == old(s)@.insert(value),
        fresh == !old(s)@.contains(value),
{
    s.insert(value)
}

/// `HashSet::contains` with the Fx hasher: whether the set holds `value`.
#[verifier::external_body]
pub(crate) fn index_set_contains(s: &FxHashSet<usize>, value: usize) -> (found: bool)
    ensures
        found == s@.contains(value),
{
    s.contains(&value)
}

} // verus!
