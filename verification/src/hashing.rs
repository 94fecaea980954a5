use vstd::prelude::*;
use std::collections::hash_map::DefaultHasher;
use std::hash::{Hash, Hasher};

verus! {

/// The 64-bit identifier that `DefaultHasher` assigns to a string.
/// The hasher is deterministic: the identifier is a function of the
/// characters alone.
pub uninterp spec fn hash_of(s: Seq<char>) -> u64;

/// Relies on std's `DefaultHasher`: all hashers built by `DefaultHasher::new`
/// hash equal input to equal output, so the result depends on `value` alone.
#[verifier::external_body]
pub(crate) fn id_from_str(value: &str) -> (r: u64)
    ensures
        r == hash_of(value@),
{
    let mut hasher = DefaultHasher::new();
    value.hash(&mut hasher);
    hasher.finish()
}

} // verus!
