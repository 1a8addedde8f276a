//! The keys and values that the archive stores in its sharded map: words,
//! hashed with the standard library's default hasher, and document
//! identifiers.

use std::collections::hash_map::DefaultHasher;
use std::hash::Hash;
use std::hash::Hasher;
use vstd::prelude::*;
use vstd::std_specs::hash::DefaultHasherAdditionalSpecFns;
use crate::multimap::{ShardKey, ShardValue};

verus! {

/// What hashing a string with the characters `s` feeds to a hasher.
pub uninterp spec fn str_hash_input(s: Seq<char>) -> Seq<Seq<u8>>;

/// `<str as Hash>::hash` with a `DefaultHasher`: what the hasher is fed
/// depends on the characters of the string alone.
#[verifier::external_body]
fn feed_str(s: &str, state: &mut DefaultHasher)
    ensures
        final(state)@ == old(state)@ + str_hash_input(s@),
{
    s.hash(state);
}

/// The hash of the string with the characters `s`: what a default hasher
/// makes of it, starting afresh.
pub open spec fn str_hash(s: Seq<char>) -> u64 {
    DefaultHasher::spec_finish(Seq::<Seq<u8>>::empty() + str_hash_input(s))
}

impl ShardKey for String {
    open spec fn hash_of(v: Seq<char>) -> u64 {
        str_hash(v)
    }

    fn hash_code(&self) -> (h: u64) {
        let mut hasher = DefaultHasher::new();
        feed_str(self.as_str(), &mut hasher);
        hasher.finish()
    }

    fn same_key(&self, other: &Self) -> (b: bool) {
        *self == *other
    }
}

impl ShardValue for usize {
    fn same_value(&self, other: &Self) -> (b: bool) {
        *self == *other
    }

    fn duplicate(&self) -> (copy: Self) {
        *self
    }
}

} // verus!
