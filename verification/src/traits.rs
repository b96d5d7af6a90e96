//! The capability contract every cache of this crate offers its callers:
//! recency-ordered entries under a fixed capacity, and a durable snapshot of
//! the full state.

use vstd::prelude::*;
use crate::codec::DecodeError;
use crate::model::{contains_key, insert_entry, lookup, promote};

verus! {

/// A fixed-capacity key-value cache with least-recently-used eviction.
///
/// The abstract state is `entries()`, the live entries ordered from most- to
/// least-recently-used, together with the fixed `capacity()`. Every operation
/// pins its effect on that state. A snapshot of the whole state can be taken
/// with `persist` and a state can be restored with `load`; restoring replaces
/// the state wholesale or, when the text is rejected, changes nothing.
pub trait Cache<K: View, V: View>: Sized {
    /// The live entries, most-recently-used first.
    spec fn entries(&self) -> Seq<(K::V, V::V)>;

    /// The fixed bound on the number of live entries.
    spec fn capacity(&self) -> nat;

    /// Structural soundness: keys unique, entry count within the capacity,
    /// and a positive capacity.
    spec fn wf(&self) -> bool;

    /// The snapshot text `persist` produces for the current state.
    spec fn snapshot(&self) -> Seq<char>;

    /// The state a snapshot text decodes to, when it is a valid one.
    spec fn parse(data: Seq<char>) -> Option<(Seq<(K::V, V::V)>, nat)>;

    /// An empty cache that will hold at most `capacity` entries. A zero
    /// capacity is a misuse and is rejected outright.
    fn new(capacity: usize) -> (r: Self)
        requires
            capacity >= 1,
        ensures
            r.wf(),
            r.entries() == Seq::<(K::V, V::V)>::empty(),
            r.capacity() == capacity,
    ;

    /// Store `value` under `key`. The entry becomes the most recently used;
    /// an existing entry for `key` is replaced without changing the entry
    /// count; a new entry above capacity evicts the least recently used one.
    /// Insertion cannot fail.
    fn insert(&mut self, key: K, value: V)
        requires
            old(self).wf(),
        ensures
            final(self).wf(),
            final(self).capacity() == old(self).capacity(),
            final(self).entries() == insert_entry(
                old(self).entries(),
                old(self).capacity(),
                key@,
                value@,
            ),
    ;

    /// Read the value under `key` and promote the entry to most recently
    /// used; the value is handed out as an owned copy, and the store keeps
    /// the entry. A miss returns nothing and changes nothing.
    fn get(&mut self, key: &K) -> (r: Option<V>)
        requires
            old(self).wf(),
        ensures
            final(self).wf(),
            final(self).capacity() == old(self).capacity(),
            final(self).entries() == promote(old(self).entries(), key@),
            r is None <==> lookup(old(self).entries(), key@) is None,
            r matches Some(v) ==> lookup(old(self).entries(), key@) == Some(v@),
    ;

    /// Mark the entry holding `key` as the most recently used. Demanding this
    /// of an absent key is a misuse and is rejected outright.
    fn move_to_head(&mut self, key: &K)
        requires
            old(self).wf(),
            contains_key(old(self).entries(), key@),
        ensures
            final(self).wf(),
            final(self).capacity() == old(self).capacity(),
            final(self).entries() == promote(old(self).entries(), key@),
    ;

    /// The snapshot text of the full current state.
    fn persist(&self) -> (r: String)
        requires
            self.wf(),
        ensures
            r@ == self.snapshot(),
    ;

    /// Replace the whole state with the one `data` describes. A text that is
    /// not a valid snapshot is rejected and the cache is left untouched.
    fn load(&mut self, data: &str) -> (r: Result<(), DecodeError>)
        ensures
            match Self::parse(data@) {
                Some(st) => {
                    &&& r is Ok
                    &&& final(self).wf()
                    &&& final(self).entries() == st.0
                    &&& final(self).capacity() == st.1
                },
                None => r is Err && *final(self) == *old(self),
            },
    ;
}

} // verus!
