//! Laws of the table's abstract model.
//!
//! The table's operations speak of a `Map` from key byte strings to values
//! ([`crate::map::HashMap`]) or a `Set` of member byte strings
//! ([`crate::set::HashSet`]).  The laws below state, once and for all, how
//! chains of those operations behave.

use vstd::prelude::*;

verus! {

/// A sequence of inserts applied to a map model, oldest first.
pub open spec fn insert_all<V>(m: Map<Seq<u8>, V>, kvs: Seq<(Seq<u8>, V)>) -> Map<Seq<u8>, V>
    decreases kvs.len(),
{
    if kvs.len() == 0 {
        m
    } else {
        insert_all(m.insert(kvs[0].0, kvs[0].1), kvs.drop_first())
    }
}

/// A binding survives any further inserts of other keys.
proof fn lemma_binding_survives<V>(m: Map<Seq<u8>, V>, kb: Seq<u8>, v: V, rest: Seq<(Seq<u8>, V)>)
    requires
        m.dom().contains(kb),
        m[kb] == v,
        forall|i: int| 0 <= i < rest.len() ==> (#[trigger] rest[i]).0 != kb,
    ensures
        insert_all(m, rest).dom().contains(kb),
        insert_all(m, rest)[kb] == v,
    decreases rest.len(),
{
    if rest.len() > 0 {
        let m2 = m.insert(rest[0].0, rest[0].1);
        assert(forall|i: int|
            0 <= i < rest.drop_first().len() ==> (#[trigger] rest.drop_first()[i]).0 == rest[i
                + 1].0);
        lemma_binding_survives(m2, kb, v, rest.drop_first());
    }
}

/// Round-trip: after `insert(k, v)`, a lookup of `k` returns `v`, however
/// many bindings of other keys are inserted in between; with further
/// inserts of `k` itself, the lookup returns the most recent one.
pub proof fn lemma_round_trip<V>(m: Map<Seq<u8>, V>, kb: Seq<u8>, v: V, rest: Seq<(Seq<u8>, V)>)
    requires
        forall|i: int| 0 <= i < rest.len() ==> (#[trigger] rest[i]).0 != kb,
    ensures
        insert_all(m.insert(kb, v), rest).dom().contains(kb),
        insert_all(m.insert(kb, v), rest)[kb] == v,
{
    lemma_binding_survives(m.insert(kb, v), kb, v, rest);
}

/// Idempotent remove: removing an absent key changes nothing, so removing
/// it twice finds it absent both times and leaves the contents alone.
pub proof fn lemma_remove_absent<V>(m: Map<Seq<u8>, V>, kb: Seq<u8>)
    requires
        !m.dom().contains(kb),
    ensures
        m.remove(kb) == m,
        m.remove(kb).remove(kb) == m,
        !m.remove(kb).dom().contains(kb),
{
    assert(m.remove(kb) =~= m);
}

/// Set algebra: two sets include each other exactly when they hold the same
/// members, and the empty set is a subset of every set and disjoint from
/// every set.
pub proof fn lemma_set_algebra(a: Set<Seq<u8>>, b: Set<Seq<u8>>)
    ensures
        (a.subset_of(b) && b.subset_of(a)) <==> a == b,
        Set::<Seq<u8>>::empty().subset_of(a),
        Set::<Seq<u8>>::empty().disjoint(a),
{
    if a.subset_of(b) && b.subset_of(a) {
        assert(a =~= b);
    }
}

} // verus!
