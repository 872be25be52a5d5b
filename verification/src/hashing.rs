//! Fingerprints. The key of a value is the standard library's default hash of
//! the value.

use std::collections::hash_map::DefaultHasher;
use std::hash::{Hash, Hasher};
use vstd::prelude::*;
use vstd::std_specs::hash::DefaultHasherAdditionalSpecFns;

verus! {

/// The writes by which a string feeds a hasher.
pub uninterp spec fn hash_writes(value: Seq<char>) -> Seq<Seq<u8>>;

/// The fingerprint of a value: what a default hasher that was fed the value,
/// and nothing else, yields.
pub open spec fn fingerprint_of(value: Seq<char>) -> u64 {
    DefaultHasher::spec_finish(hash_writes(value))
}

/// Trusted: `<String as Hash>::hash`. What a string feeds to a hasher depends
/// on the string alone, and comes after what the hasher was fed before.
#[verifier::external_body]
fn feed(value: &String, state: &mut DefaultHasher)
    ensures
        final(state)@ == old(state)@ + hash_writes(value@),
{
    value.hash(state)
}

/// The fingerprint of `value`.
pub fn fingerprint(value: &String) -> (key: u64)
    ensures
        key == fingerprint_of(value@),
{
    let mut state = DefaultHasher::new();
    feed(value, &mut state);
    assert(state@ =~= hash_writes(value@));
    state.finish()
}

} // verus!
