//! A set built as a thin wrapper over the table: membership is key
//! presence, the value slot is the unit marker, and the set-algebra queries
//! walk one table while probing the other.

use vstd::prelude::*;

use crate::keys::AsBytes;
use crate::map::{HashMap, HashMapIterator};

verus! {

/// A set of byte-serializable values, backed by a [`HashMap`] with unit
/// values.  Its abstract value is the set of member byte forms.
pub struct HashSet<T> {
    map: HashMap<T, ()>,
}

impl<T: AsBytes> View for HashSet<T> {
    type V = Set<Seq<u8>>;

    closed spec fn view(&self) -> Set<Seq<u8>> {
        self.map@.dom()
    }
}

impl<T: AsBytes> HashSet<T> {
    /// The underlying table's invariant.
    pub closed spec fn wf(&self) -> bool {
        self.map.wf()
    }

    /// The number of members.
    pub closed spec fn spec_len(&self) -> nat {
        self.map.spec_len()
    }

    /// The stored length is the number of members of the abstract set.
    pub proof fn lemma_len_is_model_size(&self)
        requires
            self.wf(),
        ensures
            self@.finite(),
            self@.len() == self.spec_len(),
    {
        self.map.lemma_len_is_model_size();
    }

    /// An empty set.
    pub fn new() -> (s: Self)
        ensures
            s.wf(),
            s@ == Set::<Seq<u8>>::empty(),
            s.spec_len() == 0,
    {
        let s = HashSet { map: HashMap::new() };
        proof {
            assert(s.map@.dom() =~= Set::<Seq<u8>>::empty());
        }
        s
    }

    /// Add a member; true exactly when it was not present before.
    pub fn insert(&mut self, value: T) -> (fresh: bool)
        requires
            old(self).wf(),
            old(self).spec_len() <= usize::MAX as nat / 64,
        ensures
            final(self).wf(),
            final(self)@ == old(self)@.insert(value.bytes()),
            fresh == !old(self)@.contains(value.bytes()),
            fresh ==> final(self).spec_len() == old(self).spec_len() + 1,
            !fresh ==> final(self).spec_len() == old(self).spec_len(),
    {
        let ghost kb = value.bytes();
        let r = self.map.insert(value, ());
        proof {
            assert(self.map@.dom() =~= old(self).map@.dom().insert(kb));
        }
        match r {
            Some(_) => false,
            None => true,
        }
    }

    /// Remove a member; true exactly when it was present.
    pub fn remove(&mut self, value: &T) -> (removed: bool)
        requires
            old(self).wf(),
            old(self).spec_len() <= usize::MAX as nat / 64,
        ensures
            final(self).wf(),
            final(self)@ == old(self)@.remove(value.bytes()),
            removed == old(self)@.contains(value.bytes()),
            removed ==> final(self).spec_len() + 1 == old(self).spec_len(),
            !removed ==> final(self).spec_len() == old(self).spec_len(),
    {
        let ghost kb = value.bytes();
        let r = self.map.pop(value);
        proof {
            assert(self.map@.dom() =~= old(self).map@.dom().remove(kb));
        }
        match r {
            Some(_) => true,
            None => false,
        }
    }

    /// Whether a value is a member.
    pub fn contains(&self, elt: &T) -> (r: bool)
        requires
            self.wf(),
        ensures
            r == self@.contains(elt.bytes()),
    {
        match self.map.find_equiv(elt) {
            Some(_) => true,
            None => false,
        }
    }

    /// The number of members.
    pub fn len(&self) -> (n: usize)
        ensures
            n as nat == self.spec_len(),
    {
        self.map.len()
    }

    /// Remove every member, keeping the capacity.
    pub fn clear(&mut self)
        requires
            old(self).wf(),
        ensures
            final(self).wf(),
            final(self)@ == Set::<Seq<u8>>::empty(),
            final(self).spec_len() == 0,
    {
        self.map.clear();
        proof {
            assert(self.map@.dom() =~= Set::<Seq<u8>>::empty());
        }
    }

    /// Whether no member of this set is a member of `other`.
    pub fn is_disjoint(&self, other: &HashSet<T>) -> (r: bool)
        requires
            self.wf(),
            other.wf(),
        ensures
            r == self@.disjoint(other@),
    {
        self.map.keys_disjoint_with(&other.map)
    }

    /// Whether every member of this set is a member of `other`.
    pub fn is_subset(&self, other: &HashSet<T>) -> (r: bool)
        requires
            self.wf(),
            other.wf(),
        ensures
            r == self@.subset_of(other@),
    {
        self.map.keys_subset_of(&other.map)
    }

    /// Whether every member of `other` is a member of this set.
    pub fn is_superset(&self, other: &HashSet<T>) -> (r: bool)
        requires
            self.wf(),
            other.wf(),
        ensures
            r == other@.subset_of(self@),
    {
        other.is_subset(self)
    }

    /// A cursor over the members, in storage order.
    pub fn iter<'a>(&'a self) -> (it: HashSetIterator<'a, T>)
        requires
            self.wf(),
        ensures
            it.inv(),
            it.remaining().len() == self.spec_len(),
            forall|i: int|
                0 <= i < it.remaining().len() ==> self@.contains(
                    (#[trigger] it.remaining()[i]).bytes(),
                ),
            forall|kb: Seq<u8>|
                self@.contains(kb) ==> exists|i: int|
                    0 <= i < it.remaining().len() && (#[trigger] it.remaining()[i]).bytes() == kb,
    {
        let inner = self.map.iter();
        let ghost kvs = inner.remaining();
        let it = HashSetIterator { inner };
        proof {
            assert(forall|i: int|
                0 <= i < it.remaining().len() ==> #[trigger] it.remaining()[i]
                    == self.map.spec_kvs()[i].0);
            assert forall|kb: Seq<u8>| self@.contains(kb) implies exists|i: int|
                0 <= i < it.remaining().len() && (#[trigger] it.remaining()[i]).bytes() == kb by {
                let i = choose|i: int| 0 <= i < kvs.len() && (#[trigger] kvs[i]).0.bytes() == kb;
                assert(it.remaining()[i].bytes() == kb);
            }
        }
        it
    }
}

/// A single-pass cursor over the members of a set, in storage order.
pub struct HashSetIterator<'a, T> {
    inner: HashMapIterator<'a, T, ()>,
}

impl<'a, T: AsBytes> HashSetIterator<'a, T> {
    /// The cursor stays within the slot array.
    pub closed spec fn inv(&self) -> bool {
        self.inner.inv()
    }

    /// The members not yet produced, in storage order.
    pub closed spec fn remaining(&self) -> Seq<T> {
        Seq::new(self.inner.remaining().len(), |i: int| self.inner.remaining()[i].0)
    }

    /// Advance to the next member and return it.
    pub fn next(&mut self) -> (r: Option<&'a T>)
        requires
            old(self).inv(),
        ensures
            final(self).inv(),
            match r {
                Some(k) => old(self).remaining().len() > 0 && *k == old(self).remaining()[0]
                    && final(self).remaining() == old(self).remaining().drop_first(),
                None => old(self).remaining().len() == 0 && final(self).remaining() == old(
                    self,
                ).remaining(),
            },
    {
        let r = self.inner.next();
        match r {
            Some((k, _)) => {
                proof {
                    assert(final(self).remaining() =~= old(self).remaining().drop_first());
                }
                Some(k)
            },
            None => {
                proof {
                    assert(final(self).remaining() =~= old(self).remaining());
                }
                None
            },
        }
    }
}

} // verus!
