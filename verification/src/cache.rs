//! The LRU store. One vector owns every entry and carries the recency order,
//! most-recently-used first: the order links of the classic doubly-linked
//! design become positions in the vector, so the index and the order chain
//! cannot drift apart.

use vstd::prelude::*;
use crate::codec::{decode_state, encode_state, lemma_decode_valid, lemma_encode_decode,
    spec_decode, spec_encode, DecodeError};
use crate::model::{entries_view, keys_unique, lemma_absent_keys, lemma_insert_entry_wf,
    lemma_lookup_absent, lemma_lookup_at_index, lemma_promote_wf, lookup, promote, remove_key};
use crate::traits::Cache;

verus! {

/// A fixed-capacity least-recently-used cache over owned text keys and
/// values, whose full state can be written to and restored from a snapshot
/// text.
pub struct PersistentCache {
    items: Vec<(String, String)>,
    cap: usize,
}

impl PersistentCache {
    /// The first position holding `key`, scanning from the most-recently-used
    /// end.
    fn find(&self, key: &String) -> (r: Option<usize>)
        ensures
            match r {
                Some(i) => i < self.items@.len() && self.items@[i as int].0@ == key@ && forall|
                    j: int,
                | 0 <= j < i ==> self.items@[j].0@ != key@,
                None => forall|j: int| 0 <= j < self.items@.len() ==> self.items@[j].0@ != key@,
            },
    {
        let mut i: usize = 0;
        while i < self.items.len()
            invariant
                i <= self.items@.len(),
                forall|j: int| 0 <= j < i ==> self.items@[j].0@ != key@,
            decreases self.items@.len() - i,
        {
            if self.items[i].0 == *key {
                return Some(i);
            }
            i += 1;
        }
        None
    }

    /// Splice the entry holding `key` out of the order, handing the entry
    /// back; the spliced entry is gone from both the order and the index,
    /// which are one structure here. A miss changes nothing.
    fn remove_node(&mut self, key: &String) -> (r: Option<(String, String)>)
        ensures
            final(self).cap == old(self).cap,
            entries_view(final(self).items@) == remove_key(
                entries_view(old(self).items@),
                key@,
            ),
            match r {
                Some(e) => e.0@ == key@ && lookup(entries_view(old(self).items@), key@) == Some(
                    e.1@,
                ),
                None => lookup(entries_view(old(self).items@), key@) is None,
            },
    {
        let ghost s0 = entries_view(self.items@);
        match self.find(key) {
            Some(i) => {
                let e = self.items.remove(i);
                proof {
                    lemma_lookup_at_index(s0, key@, i as int);
                    assert(entries_view(self.items@) =~= s0.remove(i as int));
                }
                Some(e)
            },
            None => {
                proof {
                    lemma_lookup_absent(s0, key@);
                }
                None
            },
        }
    }

    /// Move the entry holding `key` to the most-recently-used position; a
    /// miss changes nothing.
    fn move_to_head(&mut self, key: &String)
        ensures
            final(self).cap == old(self).cap,
            entries_view(final(self).items@) == promote(entries_view(old(self).items@), key@),
    {
        let ghost s0 = entries_view(self.items@);
        match self.remove_node(key) {
            Some(e) => {
                proof {
                    assert(lookup(s0, key@) == Some(e.1@));
                }
                self.items.insert(0, e);
                proof {
                    assert(entries_view(self.items@) =~= seq![(key@, e.1@)] + remove_key(
                        s0,
                        key@,
                    ));
                }
            },
            None => {
                proof {
                    lemma_absent_keys(s0, key@);
                }
            },
        }
    }

    /// Evict the least-recently-used entry; an empty store stays empty.
    fn pop_tail(&mut self)
        ensures
            final(self).cap == old(self).cap,
            entries_view(final(self).items@) == if entries_view(old(self).items@).len() > 0 {
                entries_view(old(self).items@).drop_last()
            } else {
                entries_view(old(self).items@)
            },
    {
        let ghost s0 = entries_view(self.items@);
        let _ = self.items.pop();
        proof {
            if s0.len() > 0 {
                assert(entries_view(self.items@) =~= s0.drop_last());
            } else {
                assert(entries_view(self.items@) =~= s0);
            }
        }
    }
}

impl Cache<String, String> for PersistentCache {
    closed spec fn entries(&self) -> Seq<(Seq<char>, Seq<char>)> {
        entries_view(self.items@)
    }

    closed spec fn capacity(&self) -> nat {
        self.cap as nat
    }

    open spec fn wf(&self) -> bool {
        &&& keys_unique(self.entries())
        &&& self.entries().len() <= self.capacity()
        &&& self.capacity() >= 1
    }

    open spec fn snapshot(&self) -> Seq<char> {
        spec_encode(self.entries(), self.capacity())
    }

    open spec fn parse(data: Seq<char>) -> Option<(Seq<(Seq<char>, Seq<char>)>, nat)> {
        spec_decode(data)
    }

    fn new(capacity: usize) -> (r: Self) {
        let r = PersistentCache { items: Vec::new(), cap: capacity };
        proof {
            assert(r.entries() =~= Seq::<(Seq<char>, Seq<char>)>::empty());
        }
        r
    }

    fn insert(&mut self, key: String, value: String) {
        let ghost s0 = entries_view(self.items@);
        let ghost cap = self.cap as nat;
        proof {
            lemma_insert_entry_wf(s0, cap, key@, value@);
        }
        let _ = self.remove_node(&key);
        let ghost kv = key@;
        let ghost vv = value@;
        self.items.insert(0, (key, value));
        proof {
            assert(entries_view(self.items@) =~= seq![(kv, vv)] + remove_key(s0, kv));
        }
        if self.items.len() > self.cap {
            self.pop_tail();
        }
    }

    fn get(&mut self, key: &String) -> (r: Option<String>) {
        let ghost s0 = entries_view(self.items@);
        proof {
            lemma_promote_wf(s0, key@);
        }
        match self.remove_node(key) {
            Some(e) => {
                let v = e.1.clone();
                self.items.insert(0, e);
                proof {
                    assert(entries_view(self.items@) =~= seq![(key@, v@)] + remove_key(
                        s0,
                        key@,
                    ));
                }
                Some(v)
            },
            None => {
                proof {
                    lemma_absent_keys(s0, key@);
                }
                None
            },
        }
    }

    fn move_to_head(&mut self, key: &String) {
        proof {
            lemma_promote_wf(entries_view(self.items@), key@);
        }
        self.move_to_head(key);
    }

    fn persist(&self) -> (r: String) {
        encode_state(&self.items, self.cap)
    }

    fn load(&mut self, data: &str) -> (r: Result<(), DecodeError>) {
        match decode_state(data) {
            Some(decoded) => {
                proof {
                    lemma_decode_valid(data@);
                }
                let (items, cap) = decoded;
                self.items = items;
                self.cap = cap;
                Ok(())
            },
            None => Err(DecodeError),
        }
    }
}

/// Round trip: the snapshot of any well-formed cache parses back to exactly
/// its state, so loading what `persist` wrote into any cache reproduces an
/// observably identical store: same live keys and values, same recency order,
/// same capacity, and so the same eviction behaviour on later inserts.
pub proof fn lemma_persist_load_round_trip(c: &PersistentCache)
    requires
        c.wf(),
    ensures
        PersistentCache::parse(c.snapshot()) == Some((c.entries(), c.capacity())),
{
    lemma_encode_decode(c.entries(), c.capacity());
}

} // verus!
