//! Keys of the table: what the table needs from a key type is a hash that
//! depends on the key's view alone, and an equality test that agrees with
//! equality of views.
use std::collections::hash_map::DefaultHasher;
use std::hash::{Hash, Hasher};
use vstd::prelude::*;
use vstd::std_specs::hash::DefaultHasherAdditionalSpecFns;

verus! {

/// A type whose values can key a `MyHashmap`.
///
/// The hash is the table's hash strategy: equal key views must hash alike, which
/// is what keeps every key in exactly one bucket.
pub trait TableKey: View + Sized {
    /// The hash of a key, as a function of its view.
    spec fn spec_hash(k: Self::V) -> u64;

    fn hash_key(&self) -> (r: u64)
        ensures
            r == Self::spec_hash(self@),
    ;

    fn same_key(&self, other: &Self) -> (r: bool)
        ensures
            r == (self@ == other@),
    ;
}

/// What `<str as Hash>::hash` writes into a hasher, as a sequence of writes.
pub uninterp spec fn feed_str_hash_input(s: Seq<char>) -> Seq<Seq<u8>>;

/// Relies on `<str as Hash>::hash`: the writes it makes into the hasher depend on
/// the characters of the string alone.
#[verifier::external_body]
fn feed_str(s: &str, state: &mut DefaultHasher)
    ensures
        final(state)@ == old(state)@ + feed_str_hash_input(s@),
{
    s.hash(state)
}

impl TableKey for String {
    /// The digest of a fresh `DefaultHasher` that has hashed the string.
    open spec fn spec_hash(k: Seq<char>) -> u64 {
        DefaultHasher::spec_finish(Seq::<Seq<u8>>::empty() + feed_str_hash_input(k))
    }

    fn hash_key(&self) -> (r: u64) {
        let mut state = DefaultHasher::new();
        feed_str(self.as_str(), &mut state);
        state.finish()
    }

    fn same_key(&self, other: &Self) -> (r: bool) {
        self.eq(other)
    }
}

} // verus!
