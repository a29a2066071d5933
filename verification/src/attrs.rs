//! Insertion-ordered association maps keyed by [`FieldKey`].
//!
//! The crate keys every lookup table (field values, resolvers, templates,
//! item indices) by a field key.  The map is a pair of parallel vectors with
//! pairwise-distinct keys; its view is a `Map` from the key's character
//! sequence to the view of the stored value, and the insertion order of the
//! keys is exposed so that iteration order is deterministic.

use vstd::prelude::*;

use crate::field_key::FieldKey;

verus! {

#[derive(Debug)]
pub struct AttrMap<V> {
    keys: Vec<FieldKey>,
    vals: Vec<V>,
}

impl<V> AttrMap<V> {
    /// The key strings, in insertion order.
    pub closed spec fn key_seq(&self) -> Seq<Seq<char>> {
        self.keys@.map(|i: int, k: FieldKey| k@)
    }

    #[verifier::type_invariant]
    closed spec fn inv(&self) -> bool {
        &&& self.keys@.len() == self.vals@.len()
        &&& forall|i: int, j: int|
            0 <= i < j < self.key_seq().len() ==> self.key_seq()[i] != self.key_seq()[j]
    }

    /// The position of a key string, when present.
    closed spec fn spec_find(&self, s: Seq<char>) -> int {
        choose|i: int| 0 <= i < self.key_seq().len() && self.key_seq()[i] == s
    }
}

impl<V: View> View for AttrMap<V> {
    type V = Map<Seq<char>, V::V>;

    closed spec fn view(&self) -> Map<Seq<char>, V::V> {
        Map::new(
            |s: Seq<char>| self.key_seq().contains(s),
            |s: Seq<char>| self.vals@[self.spec_find(s)]@,
        )
    }
}

impl<V: View> AttrMap<V> {
    pub fn new() -> (r: AttrMap<V>)
        ensures
            r@ =~= Map::<Seq<char>, V::V>::empty(),
            r.key_seq() =~= Seq::<Seq<char>>::empty(),
    {
        AttrMap { keys: Vec::new(), vals: Vec::new() }
    }

    pub fn len(&self) -> (r: usize)
        ensures
            r == self.key_seq().len(),
    {
        self.keys.len()
    }

    /// The domain of the map is exactly the set of inserted keys.
    pub proof fn lemma_contains(&self, s: Seq<char>)
        ensures
            self@.contains_key(s) <==> self.key_seq().contains(s),
    {
    }

    /// Record that the stored keys are pairwise distinct (they are by
    /// construction; this makes the fact available to callers).
    pub fn note_distinct_keys(&self)
        ensures
            self.key_seq().no_duplicates(),
    {
        proof {
            use_type_invariant(self);
        }
    }

    /// Find the position of a key, scanning in insertion order.
    fn find(&self, key: &FieldKey) -> (r: Option<usize>)
        ensures
            r matches Some(i) ==> i < self.key_seq().len() && self.key_seq()[i as int] == key@,
            r is None ==> !self.key_seq().contains(key@),
    {
        let n = self.keys.len();
        let mut i: usize = 0;
        while i < n
            invariant
                n == self.key_seq().len(),
                i <= n,
                forall|j: int| 0 <= j < i ==> self.key_seq()[j] != key@,
            decreases n - i,
        {
            if self.keys[i].eq(key) {
                return Some(i);
            }
            i = i + 1;
        }
        None
    }

    /// Look up the value stored under a key.
    pub fn get(&self, key: &FieldKey) -> (r: Option<&V>)
        ensures
            r is Some <==> self@.contains_key(key@),
            r matches Some(v) ==> v@ == self@[key@],
    {
        proof {
            use_type_invariant(self);
        }
        match self.find(key) {
            Some(i) => {
                proof {
                    assert(self.key_seq().contains(key@));
                    let w = self.spec_find(key@);
                    assert(self.key_seq()[w] == key@);
                    assert(w == i as int);
                }
                Some(&self.vals[i])
            },
            None => {
                proof {
                    assert(!self@.contains_key(key@));
                }
                None
            },
        }
    }

    pub fn contains_key(&self, key: &FieldKey) -> (r: bool)
        ensures
            r == self@.contains_key(key@),
    {
        self.get(key).is_some()
    }

    /// Insert a value, replacing the value under an equal key if one exists.
    /// A new key is appended at the end of the insertion order.
    pub fn insert(&mut self, key: FieldKey, val: V)
        ensures
            final(self)@ =~= old(self)@.insert(key@, val@),
            final(self).key_seq() =~= if old(self)@.contains_key(key@) {
                old(self).key_seq()
            } else {
                old(self).key_seq().push(key@)
            },
    {
        proof {
            use_type_invariant(&*self);
        }
        let found = self.find(&key);
        let mut tmp = AttrMap { keys: Vec::new(), vals: Vec::new() };
        core::mem::swap(self, &mut tmp);
        let AttrMap { mut keys, mut vals } = tmp;
        let ghost old_keys = old(self).key_seq();
        match found {
            Some(i) => {
                vals.set(i, val);
                let r = AttrMap { keys, vals };
                proof {
                    assert(r.key_seq() =~= old_keys);
                    assert(old(self)@.contains_key(key@));
                    assert forall|s: Seq<char>| r.key_seq().contains(s) implies r@[s] == old(
                        self,
                    )@.insert(key@, val@)[s] by {
                        let w = r.spec_find(s);
                        assert(0 <= w < r.key_seq().len() && r.key_seq()[w] == s);
                        if s == key@ {
                            assert(w == i as int);
                        } else {
                            assert(old(self).spec_find(s) == w);
                        }
                    }
                }
                *self = r;
            },
            None => {
                let ghost keyv = key@;
                keys.push(key);
                vals.push(val);
                proof {
                    let ks = keys@.map(|i: int, k: FieldKey| k@);
                    assert(ks =~= old_keys.push(keyv));
                    assert forall|i: int, j: int| 0 <= i < j < ks.len() implies ks[i] != ks[j] by {
                        if j == ks.len() - 1 {
                            if ks[i] == keyv {
                                assert(old_keys[i] == keyv);
                                assert(old_keys.contains(keyv));
                            }
                        }
                    }
                }
                let r = AttrMap { keys, vals };
                proof {
                    assert(r.key_seq() =~= old_keys.push(key@));
                    assert forall|s: Seq<char>| r.key_seq().contains(s) implies r@[s] == old(
                        self,
                    )@.insert(key@, val@)[s] by {
                        let w = r.spec_find(s);
                        assert(0 <= w < r.key_seq().len() && r.key_seq()[w] == s);
                        if s == key@ {
                            assert(w == r.key_seq().len() - 1);
                        } else {
                            assert(w < old_keys.len());
                            assert(old(self).key_seq()[w] == s);
                            assert(old(self)@.contains_key(s));
                            assert(old(self).spec_find(s) == w);
                        }
                    }
                    assert forall|s: Seq<char>|
                        old(self)@.insert(key@, val@).contains_key(s) implies r@.contains_key(
                        s,
                    ) by {
                        if s == key@ {
                            assert(r.key_seq()[r.key_seq().len() - 1] == s);
                        } else {
                            let w = old(self).spec_find(s);
                            assert(r.key_seq()[w] == s);
                        }
                    }
                }
                *self = r;
            },
        }
    }

    /// The key at one position of the insertion order.
    pub fn key_at(&self, i: usize) -> (r: &FieldKey)
        requires
            i < self.key_seq().len(),
        ensures
            r@ == self.key_seq()[i as int],
            self@.contains_key(r@),
    {
        proof {
            use_type_invariant(self);
            assert(self.key_seq()[i as int] == self.keys@[i as int]@);
        }
        &self.keys[i]
    }

    /// The value at one position of the insertion order.
    pub fn val_at(&self, i: usize) -> (r: &V)
        requires
            i < self.key_seq().len(),
        ensures
            r@ == self@[self.key_seq()[i as int]],
    {
        proof {
            use_type_invariant(self);
            let s = self.key_seq()[i as int];
            assert(self.key_seq().contains(s));
            let w = self.spec_find(s);
            assert(self.key_seq()[w] == s);
            assert(w == i as int);
        }
        &self.vals[i]
    }
}

/// A duplicate-free sequence whose elements all occur in another
/// duplicate-free sequence is no longer than it.
pub proof fn lemma_distinct_within_len(sub: Seq<Seq<char>>, sup: Seq<Seq<char>>)
    requires
        sub.no_duplicates(),
        sup.no_duplicates(),
        forall|x: Seq<char>| sub.contains(x) ==> sup.contains(x),
    ensures
        sub.len() <= sup.len(),
{
    broadcast use vstd::seq_lib::seq_to_set_is_finite;

    sub.unique_seq_to_set();
    sup.unique_seq_to_set();
    assert(sub.to_set().subset_of(sup.to_set()));
    vstd::set_lib::lemma_len_subset(sub.to_set(), sup.to_set());
}

} // verus!
