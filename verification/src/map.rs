//! The open-addressing hash table.
//!
//! A fixed-length array of [`Entry`] slots, a capacity that is always a
//! power of two at least 8, a mask for fast modulo, and counts of live
//! (`length`) and tombstoned (`ghosts`) slots.  Keys are identified by
//! their byte serialization ([`AsBytes`]); the table's abstract value is a
//! map from key byte strings to values.
//!
//! The central invariant of open addressing: every occupied slot is found
//! by probing with its cached hash from the canonical start index, before
//! that probe meets any empty slot or any other slot that matches the key.

use vstd::prelude::*;
use vstd::arithmetic::power2::{
    lemma2_to64, lemma_pow2_pos, lemma_pow2_strictly_increases, pow2,
};

use crate::entry::Entry;
use crate::hasher::{djb_hash_of, djbhash};
use crate::keys::AsBytes;
use crate::probe::{
    lemma_perturb_step, lemma_probe_at_bound, lemma_probe_covers, perturb, probe_at,
};

verus! {

/// The hash by which a key is probed: the DJB hash of its byte form.
pub open spec fn key_hash(kb: Seq<u8>) -> u64 {
    djb_hash_of(kb)
}

/// The byte form of the key held by an occupied or tombstoned slot.
pub(crate) open spec fn slot_bytes<K: AsBytes, V>(e: Entry<K, V>) -> Seq<u8> {
    match e {
        Entry::Empty => Seq::empty(),
        Entry::Occupied(k, _, _) => k.bytes(),
        Entry::Tombstone(k, _) => k.bytes(),
    }
}

/// A non-empty slot caches exactly the hash of its key.
pub(crate) open spec fn entry_hash_ok<K: AsBytes, V>(e: Entry<K, V>) -> bool {
    match e {
        Entry::Empty => true,
        Entry::Occupied(_, _, h) => h == key_hash(slot_bytes(e)),
        Entry::Tombstone(_, h) => h == key_hash(slot_bytes(e)),
    }
}

/// The slot that step `m` of the probe sequence for `h` visits, in a table
/// of `2^lg` slots.
pub(crate) open spec fn slot_on_path<K: AsBytes, V>(
    s: Seq<Entry<K, V>>,
    lg: nat,
    h: u64,
    m: nat,
) -> Entry<K, V> {
    s[probe_at(h, pow2(lg), m) as int]
}

/// The first `n` steps of the probe for `(kb, h)` pass only slots that are
/// neither empty nor a match for the key.
pub(crate) open spec fn clean_prefix<K: AsBytes, V>(
    s: Seq<Entry<K, V>>,
    lg: nat,
    h: u64,
    kb: Seq<u8>,
    n: nat,
) -> bool {
    forall|m: nat|
        m < n ==> !((#[trigger] slot_on_path(s, lg, h, m)) is Empty) && !slot_on_path(
            s,
            lg,
            h,
            m,
        ).spec_matches(kb, h)
}

/// The probe for `(kb, h)` arrives at slot `j` at step `n`, with a clean
/// prefix before it.
pub(crate) open spec fn reaches_at<K: AsBytes, V>(
    s: Seq<Entry<K, V>>,
    lg: nat,
    h: u64,
    kb: Seq<u8>,
    j: int,
    n: nat,
) -> bool {
    probe_at(h, pow2(lg), n) == j && clean_prefix(s, lg, h, kb, n)
}

/// The probe for `(kb, h)` arrives at slot `j` at some step, cleanly.
pub(crate) open spec fn reaches<K: AsBytes, V>(
    s: Seq<Entry<K, V>>,
    lg: nat,
    h: u64,
    kb: Seq<u8>,
    j: int,
) -> bool {
    exists|n: nat| #[trigger] reaches_at(s, lg, h, kb, j, n)
}

/// The open-addressing invariant of the slot array.
pub(crate) open spec fn table_wf<K: AsBytes, V>(s: Seq<Entry<K, V>>, lg: nat) -> bool {
    &&& forall|j: int| 0 <= j < s.len() ==> entry_hash_ok(#[trigger] s[j])
    &&& forall|j: int|
        0 <= j < s.len() && (#[trigger] s[j]) is Occupied ==> reaches(
            s,
            lg,
            key_hash(slot_bytes(s[j])),
            slot_bytes(s[j]),
            j,
        )
}

/// Whether some occupied slot holds the key with byte form `kb`.
pub(crate) open spec fn has_key<K: AsBytes, V>(s: Seq<Entry<K, V>>, kb: Seq<u8>) -> bool {
    exists|j: int| 0 <= j < s.len() && (#[trigger] s[j]) is Occupied && slot_bytes(s[j]) == kb
}

/// The index of the occupied slot holding `kb`.
pub(crate) open spec fn key_index<K: AsBytes, V>(s: Seq<Entry<K, V>>, kb: Seq<u8>) -> int {
    choose|j: int| 0 <= j < s.len() && (#[trigger] s[j]) is Occupied && slot_bytes(s[j]) == kb
}

/// The abstract value of a slot array: the map from key byte strings to
/// values over the occupied slots.
pub(crate) open spec fn map_of<K: AsBytes, V>(s: Seq<Entry<K, V>>) -> Map<Seq<u8>, V> {
    Map::new(|kb: Seq<u8>| has_key(s, kb), |kb: Seq<u8>| s[key_index(s, kb)]->Occupied_1)
}

/// The occupied slots of the array, in storage order, as key-value pairs.
pub(crate) open spec fn kv_seq<K: AsBytes, V>(s: Seq<Entry<K, V>>) -> Seq<(K, V)>
    decreases s.len(),
{
    if s.len() == 0 {
        Seq::empty()
    } else if s[0] is Occupied {
        seq![(s[0]->Occupied_0, s[0]->Occupied_1)] + kv_seq(s.drop_first())
    } else {
        kv_seq(s.drop_first())
    }
}

/// How many slots of the array are occupied.
pub(crate) open spec fn count_full<K: AsBytes, V>(s: Seq<Entry<K, V>>) -> nat {
    kv_seq(s).len()
}

/// How many slots of the array are tombstones.
pub(crate) open spec fn count_ghost<K: AsBytes, V>(s: Seq<Entry<K, V>>) -> nat
    decreases s.len(),
{
    if s.len() == 0 {
        0
    } else if s[0] is Tombstone {
        1 + count_ghost(s.drop_first())
    } else {
        count_ghost(s.drop_first())
    }
}

/// A closed-hashing associative container: DJB hash, perturbed probing,
/// tombstones.
pub struct HashMap<K, V> {
    table: Vec<Entry<K, V>>,
    capacity: usize,
    mask: u64,
    length: usize,
    ghosts: usize,
    log_cap: Ghost<nat>,
}

impl<K: AsBytes, V> View for HashMap<K, V> {
    type V = Map<Seq<u8>, V>;

    closed spec fn view(&self) -> Map<Seq<u8>, V> {
        map_of(self.table@)
    }
}

impl<K: AsBytes, V> HashMap<K, V> {
    /// The number of slots.
    pub closed spec fn spec_capacity(&self) -> nat {
        self.capacity as nat
    }

    /// The number of live bindings.
    pub closed spec fn spec_len(&self) -> nat {
        self.length as nat
    }

    /// The number of tombstoned slots.
    pub closed spec fn spec_ghosts(&self) -> nat {
        self.ghosts as nat
    }

    /// The live bindings in storage order: what iteration produces.
    pub closed spec fn spec_kvs(&self) -> Seq<(K, V)> {
        kv_seq(self.table@)
    }

    /// The table's internal invariant.
    pub closed spec fn wf(&self) -> bool {
        &&& self.capacity as nat == pow2(self.log_cap@)
        &&& self.log_cap@ >= 3
        &&& self.capacity as nat <= usize::MAX as nat / 16
        &&& self.mask as nat == self.capacity as nat - 1
        &&& self.table@.len() == self.capacity as nat
        &&& self.length as nat == count_full(self.table@)
        &&& self.ghosts as nat == count_ghost(self.table@)
        &&& 3 * (self.length as nat + self.ghosts as nat) <= 2 * (self.capacity as nat) + 3
        &&& table_wf(self.table@, self.log_cap@)
    }

    /// An empty table whose capacity is exactly `2^k` slots.
    fn with_log_capacity(capacity: usize, Ghost(k): Ghost<nat>) -> (m: Self)
        requires
            capacity as nat == pow2(k),
            k >= 3,
            capacity >= 8,
            capacity as nat <= usize::MAX as nat / 16,
        ensures
            m.wf(),
            m@ == Map::<Seq<u8>, V>::empty(),
            m.spec_capacity() == capacity as nat,
            m.spec_len() == 0,
            m.spec_ghosts() == 0,
    {
        let mut table: Vec<Entry<K, V>> = Vec::new();
        let mut i: usize = 0;
        while i < capacity
            invariant
                i <= capacity,
                table@.len() == i,
                forall|j: int| 0 <= j < i ==> (#[trigger] table@[j]) is Empty,
            decreases capacity - i,
        {
            table.push(Entry::Empty);
            i += 1;
        }
        proof {
            lemma_pow2_pos(k);
            lemma_all_empty(table@);
            assert(map_of(table@) =~= Map::<Seq<u8>, V>::empty());
        }
        HashMap {
            table,
            capacity,
            mask: (capacity as u64) - 1,
            length: 0,
            ghosts: 0,
            log_cap: Ghost(k),
        }
    }

    /// An empty table with the default capacity of 8 slots.
    pub fn new() -> (m: Self)
        ensures
            m.wf(),
            m@ == Map::<Seq<u8>, V>::empty(),
            m.spec_capacity() == 8,
            m.spec_len() == 0,
            m.spec_ghosts() == 0,
    {
        proof {
            lemma2_to64();
        }
        Self::with_log_capacity(8, Ghost(3nat))
    }

    /// An empty table whose capacity is `sz` rounded up to a power of two,
    /// and at least 8.  The bound on `sz` keeps the slot count well inside
    /// the address space.
    pub fn with_capacity(sz: usize) -> (m: Self)
        requires
            sz <= usize::MAX / 32,
        ensures
            m.wf(),
            m@ == Map::<Seq<u8>, V>::empty(),
            m.spec_len() == 0,
            m.spec_ghosts() == 0,
            m.spec_capacity() >= 8,
            m.spec_capacity() >= sz,
            m.spec_capacity() == 8 || m.spec_capacity() < 2 * (sz as nat),
    {
        let mut capacity: usize = 8;
        let ghost mut k: nat = 3nat;
        proof {
            lemma2_to64();
        }
        while capacity < sz
            invariant
                capacity as nat == pow2(k),
                k >= 3,
                capacity >= 8,
                sz <= usize::MAX / 32,
                (capacity as nat) < 2 * (sz as nat) || capacity == 8,
                capacity <= usize::MAX / 16,
            decreases 2 * (sz as int) - capacity,
        {
            proof {
                vstd::arithmetic::power2::lemma_pow2_unfold(k + 1);
                k = k + 1;
            }
            capacity = capacity * 2;
        }
        Self::with_log_capacity(capacity, Ghost(k))
    }

    /// The number of slots in the table.
    pub fn capacity(&self) -> (c: usize)
        ensures
            c as nat == self.spec_capacity(),
    {
        self.capacity
    }

    /// The number of live bindings in the table.
    pub fn len(&self) -> (l: usize)
        ensures
            l as nat == self.spec_len(),
    {
        self.length
    }

    /// Remove every binding, keeping the capacity.
    pub fn clear(&mut self)
        requires
            old(self).wf(),
        ensures
            final(self).wf(),
            final(self)@ == Map::<Seq<u8>, V>::empty(),
            final(self).spec_len() == 0,
            final(self).spec_ghosts() == 0,
            final(self).spec_capacity() == old(self).spec_capacity(),
    {
        let ghost orig = *self;
        let n = self.table.len();
        let mut i: usize = 0;
        while i < n
            invariant
                i <= n,
                orig.wf(),
                self.table@.len() == n,
                n == orig.table@.len(),
                self.capacity == orig.capacity,
                self.mask == orig.mask,
                self.log_cap == orig.log_cap,
                forall|j: int| 0 <= j < i ==> (#[trigger] self.table@[j]) is Empty,
            decreases n - i,
        {
            self.table.set(i, Entry::Empty);
            i += 1;
        }
        self.length = 0;
        self.ghosts = 0;
        proof {
            lemma_all_empty(self.table@);
            assert(map_of(self.table@) =~= Map::<Seq<u8>, V>::empty());
        }
    }

    /// Find the slot where the probe for `key` (hashing to `hash`) resolves:
    /// the occupied slot holding the key if there is one; otherwise the
    /// first tombstone met on the probe path, to be reused; otherwise the
    /// empty slot where the probe stopped.
    fn probe_equiv<Q: AsBytes>(&self, key: &Q, hash: u64) -> (i: usize)
        requires
            self.wf(),
            hash == key_hash(key.bytes()),
        ensures
            (i as nat) < self.spec_capacity(),
            reaches(self.table@, self.log_cap@, hash, key.bytes(), i as int),
            has_key(self.table@, key.bytes()) ==> self.table@[i as int] is Occupied
                && slot_bytes(self.table@[i as int]) == key.bytes() && i as int == key_index(
                self.table@,
                key.bytes(),
            ),
            !has_key(self.table@, key.bytes()) ==> !(self.table@[i as int] is Occupied),
    {
        let ghost s = self.table@;
        let ghost lg = self.log_cap@;
        let ghost cap = pow2(lg);
        let ghost kb = key.bytes();
        proof {
            lemma_lg_bound(cap, lg);
            lemma_pow2_pos(lg);
            lemma2_to64();
            if lg > 3 {
                lemma_pow2_strictly_increases(3, lg);
            }
            lemma_exists_empty(s);
            let e_idx = choose|j: int| 0 <= j < s.len() && (#[trigger] s[j]) is Empty;
            lemma_probe_covers(hash, lg, e_idx as nat);
            let n0 = choose|m: nat|
                m < 13 + pow2(lg) && probe_at(hash, pow2(lg), m) == e_idx as nat;
            assert(slot_on_path(s, lg, hash, n0) is Empty);
            assert(slot_on_path(s, lg, hash, n0).spec_matches(kb, hash));
        }
        let mut shifted_hash = hash;
        let mut free: Option<usize> = None;
        let start = crate::probe::probe_start_index(hash, self.mask, Ghost(lg));
        proof {
            lemma_probe_at_bound(hash, cap, 0);
            vstd::arithmetic::div_mod::lemma_div_basics(hash as int);
            assert(perturb(hash, 0) == hash as nat / pow2(0));
            assert(pow2(0) == 1);
        }
        let mut i = start as usize;
        let ghost mut n: nat = 0;
        loop
            invariant
                self.wf(),
                s == self.table@,
                lg == self.log_cap@,
                cap == pow2(lg),
                cap == self.spec_capacity(),
                kb == key.bytes(),
                hash == key_hash(kb),
                lg < 61,
                (i as nat) == probe_at(hash, cap, n),
                (i as nat) < cap,
                shifted_hash as nat == perturb(hash, n),
                clean_prefix(s, lg, hash, kb, n),
                exists|m: nat|
                    n <= m < 13 + cap && (#[trigger] slot_on_path(
                        s,
                        lg,
                        hash,
                        m,
                    )).spec_matches(kb, hash),
                match free {
                    Some(g) => (g as nat) < cap && s[g as int] is Tombstone && exists|m: nat|
                        m < n && probe_at(hash, cap, m) == g as nat,
                    None => true,
                },
            ensures
                (i as nat) < cap,
                (i as nat) == probe_at(hash, cap, n),
                clean_prefix(s, lg, hash, kb, n),
                slot_on_path(s, lg, hash, n).spec_matches(kb, hash),
                match free {
                    Some(g) => (g as nat) < cap && s[g as int] is Tombstone && exists|m: nat|
                        m < n && probe_at(hash, cap, m) == g as nat,
                    None => true,
                },
            decreases 13 + cap - n,
        {
            let matched = self.table[i].matches(key, hash);
            if matched {
                proof {
                    assert(slot_on_path(s, lg, hash, n) == s[i as int]);
                }
                break;
            }
            if free.is_none() && self.table[i].is_ghost() {
                free = Some(i);
            }
            proof {
                let m0 = choose|m: nat|
                    n <= m < 13 + cap && (#[trigger] slot_on_path(s, lg, hash, m)).spec_matches(
                        kb,
                        hash,
                    );
                assert(slot_on_path(s, lg, hash, n) == s[i as int]);
                assert(m0 != n);
                assert(n + 1 <= m0 < 13 + cap && slot_on_path(s, lg, hash, m0).spec_matches(
                    kb,
                    hash,
                ));
                assert forall|m: nat| m < n + 1 implies !((#[trigger] slot_on_path(
                    s,
                    lg,
                    hash,
                    m,
                )) is Empty) && !slot_on_path(s, lg, hash, m).spec_matches(kb, hash) by {
                    if m == n {
                        assert(slot_on_path(s, lg, hash, n) == s[i as int]);
                    }
                }
                lemma_perturb_step(hash, n);
                vstd::bits::lemma_u64_shr_is_div(shifted_hash, 5);
                lemma2_to64();
            }
            let next = crate::probe::probe_step_index(i as u64, shifted_hash, self.mask, Ghost(lg));
            shifted_hash = shifted_hash >> 5;
            proof {
                n = n + 1;
                lemma_probe_at_bound(hash, cap, n);
                assert((next as nat) == probe_at(hash, cap, n));
            }
            i = next as usize;
        }
        let terminal_full = self.table[i].is_full();
        let result: usize = if terminal_full {
            i
        } else {
            match free {
                Some(g) => g,
                None => i,
            }
        };
        proof {
            assert(slot_on_path(s, lg, hash, n) == s[i as int]);
            if s[i as int] is Occupied {
                assert(slot_bytes(s[i as int]) == kb);
                assert(has_key(s, kb));
                lemma_occupied_unique(s, lg, i as int, key_index(s, kb));
                assert(reaches_at(s, lg, hash, kb, i as int, n));
            } else {
                lemma_no_key(s, lg, hash, kb, n);
                match free {
                    Some(g) => {
                        let m = choose|m: nat| m < n && probe_at(hash, cap, m) == g as nat;
                        assert(clean_prefix(s, lg, hash, kb, m));
                        assert(reaches_at(s, lg, hash, kb, g as int, m));
                    },
                    None => {
                        assert(reaches_at(s, lg, hash, kb, i as int, n));
                    },
                }
            }
        }
        result
    }

    /// Probe with the owned key type itself.
    fn probe(&self, key: &K, hash: u64) -> (i: usize)
        requires
            self.wf(),
            hash == key_hash(key.bytes()),
        ensures
            (i as nat) < self.spec_capacity(),
            reaches(self.table@, self.log_cap@, hash, key.bytes(), i as int),
            has_key(self.table@, key.bytes()) ==> self.table@[i as int] is Occupied
                && slot_bytes(self.table@[i as int]) == key.bytes() && i as int == key_index(
                self.table@,
                key.bytes(),
            ),
            !has_key(self.table@, key.bytes()) ==> !(self.table@[i as int] is Occupied),
    {
        self.probe_equiv(key, hash)
    }
}

/// A table with fewer non-empty slots than slots has an empty slot.
proof fn lemma_exists_empty<K: AsBytes, V>(s: Seq<Entry<K, V>>)
    requires
        count_full(s) + count_ghost(s) < s.len(),
    ensures
        exists|j: int| 0 <= j < s.len() && (#[trigger] s[j]) is Empty,
    decreases s.len(),
{
    if s.len() > 0 {
        if s[0] is Empty {
            assert(s[0] is Empty);
        } else {
            lemma_exists_empty(s.drop_first());
            let j = choose|j: int|
                0 <= j < s.drop_first().len() && (#[trigger] s.drop_first()[j]) is Empty;
            assert(s[j + 1] is Empty);
        }
    }
}

/// No two occupied slots hold the same key: their probes would have had to
/// stop at the same place.
proof fn lemma_occupied_unique<K: AsBytes, V>(s: Seq<Entry<K, V>>, lg: nat, j1: int, j2: int)
    requires
        table_wf(s, lg),
        s.len() == pow2(lg),
        0 <= j1 < s.len(),
        0 <= j2 < s.len(),
        s[j1] is Occupied,
        s[j2] is Occupied,
        slot_bytes(s[j1]) == slot_bytes(s[j2]),
    ensures
        j1 == j2,
{
    if j1 != j2 {
        let kb = slot_bytes(s[j1]);
        let h = key_hash(kb);
        assert(reaches(s, lg, h, kb, j1));
        assert(reaches(s, lg, h, kb, j2));
        let n1 = choose|n: nat| reaches_at(s, lg, h, kb, j1, n);
        let n2 = choose|n: nat| reaches_at(s, lg, h, kb, j2, n);
        assert(entry_hash_ok(s[j1]) && entry_hash_ok(s[j2]));
        if n1 < n2 {
            assert(slot_on_path(s, lg, h, n1) == s[j1]);
            assert(s[j1].spec_matches(kb, h));
            assert(!slot_on_path(s, lg, h, n1).spec_matches(kb, h));
        } else if n2 < n1 {
            assert(slot_on_path(s, lg, h, n2) == s[j2]);
            assert(s[j2].spec_matches(kb, h));
            assert(!slot_on_path(s, lg, h, n2).spec_matches(kb, h));
        }
    }
}

/// If a probe stops at a slot that matches but is not occupied, the key is
/// not in the table at all.
proof fn lemma_no_key<K: AsBytes, V>(s: Seq<Entry<K, V>>, lg: nat, h: u64, kb: Seq<u8>, n: nat)
    requires
        table_wf(s, lg),
        s.len() == pow2(lg),
        h == key_hash(kb),
        clean_prefix(s, lg, h, kb, n),
        slot_on_path(s, lg, h, n).spec_matches(kb, h),
        !(slot_on_path(s, lg, h, n) is Occupied),
    ensures
        !has_key(s, kb),
{
    if has_key(s, kb) {
        let j = choose|j: int|
            0 <= j < s.len() && (#[trigger] s[j]) is Occupied && slot_bytes(s[j]) == kb;
        assert(reaches(s, lg, key_hash(slot_bytes(s[j])), slot_bytes(s[j]), j));
        let nj = choose|m: nat| reaches_at(s, lg, h, kb, j, m);
        assert(entry_hash_ok(s[j]));
        if nj < n {
            assert(slot_on_path(s, lg, h, nj) == s[j]);
            assert(s[j].spec_matches(kb, h));
            assert(false);
        } else if nj == n {
            assert(slot_on_path(s, lg, h, n) == s[j]);
            assert(false);
        } else {
            assert(!slot_on_path(s, lg, h, n).spec_matches(kb, h));
            assert(false);
        }
    }
}

/// The capacity bound keeps the slot-count exponent well below the hash
/// width.
proof fn lemma_lg_bound(cap: nat, lg: nat)
    requires
        cap == pow2(lg),
        cap <= usize::MAX as nat / 16,
    ensures
        lg < 61,
{
    assert(usize::MAX == u32::MAX || usize::MAX == u64::MAX);
    lemma2_to64();
    vstd::arithmetic::power2::lemma2_to64_rest();
    if lg >= 61 {
        lemma_pow2_strictly_increases(60, lg);
        assert(pow2(60) == 0x1000000000000000);
    }
}

/// No two occupied slots hold the same key.
pub(crate) open spec fn keys_unique<K: AsBytes, V>(s: Seq<Entry<K, V>>) -> bool {
    forall|j1: int, j2: int|
        0 <= j1 < j2 < s.len() && (#[trigger] s[j1]) is Occupied && (#[trigger] s[j2]) is Occupied
            ==> slot_bytes(s[j1]) != slot_bytes(s[j2])
}

/// The open-addressing invariant forces keys to be unique.
proof fn lemma_wf_unique<K: AsBytes, V>(s: Seq<Entry<K, V>>, lg: nat)
    requires
        table_wf(s, lg),
        s.len() == pow2(lg),
    ensures
        keys_unique(s),
{
    assert forall|j1: int, j2: int|
        0 <= j1 < j2 < s.len() && (#[trigger] s[j1]) is Occupied && (#[trigger] s[j2]) is Occupied
            implies slot_bytes(s[j1]) != slot_bytes(s[j2]) by {
        if slot_bytes(s[j1]) == slot_bytes(s[j2]) {
            lemma_occupied_unique(s, lg, j1, j2);
        }
    }
}

/// With unique keys, the occupied slot of a stored key is the one the model
/// reads: the table maps its key to its value.
proof fn lemma_key_index_is<K: AsBytes, V>(s: Seq<Entry<K, V>>, j: int)
    requires
        keys_unique(s),
        0 <= j < s.len(),
        s[j] is Occupied,
    ensures
        has_key(s, slot_bytes(s[j])),
        key_index(s, slot_bytes(s[j])) == j,
        map_of(s).dom().contains(slot_bytes(s[j])),
        map_of(s)[slot_bytes(s[j])] == s[j]->Occupied_1,
{
    let kb = slot_bytes(s[j]);
    assert(has_key(s, kb));
    let ki = key_index(s, kb);
    assert(0 <= ki < s.len() && s[ki] is Occupied && slot_bytes(s[ki]) == kb);
    if ki < j {
        assert(slot_bytes(s[ki]) != slot_bytes(s[j]));
    } else if j < ki {
        assert(slot_bytes(s[j]) != slot_bytes(s[ki]));
    }
}

/// The occupied slots of a concatenation are those of the parts, in order;
/// tombstone counts add likewise.
proof fn lemma_kv_app<K: AsBytes, V>(a: Seq<Entry<K, V>>, b: Seq<Entry<K, V>>)
    ensures
        kv_seq(a + b) == kv_seq(a) + kv_seq(b),
        count_ghost(a + b) == count_ghost(a) + count_ghost(b),
    decreases a.len(),
{
    if a.len() == 0 {
        assert(a + b =~= b);
        assert(kv_seq(a) + kv_seq(b) =~= kv_seq(b));
    } else {
        lemma_kv_app(a.drop_first(), b);
        assert((a + b).drop_first() =~= a.drop_first() + b);
        assert((a + b)[0] == a[0]);
        if a[0] is Occupied {
            assert(kv_seq(a + b) == seq![(a[0]->Occupied_0, a[0]->Occupied_1)] + (kv_seq(
                a.drop_first(),
            ) + kv_seq(b)));
            assert(kv_seq(a) + kv_seq(b) =~= seq![(a[0]->Occupied_0, a[0]->Occupied_1)] + (kv_seq(
                a.drop_first(),
            ) + kv_seq(b)));
        }
    }
}

/// The contents of a one-slot array.
proof fn lemma_kv_single<K: AsBytes, V>(e: Entry<K, V>)
    ensures
        e is Occupied ==> kv_seq(seq![e]) == seq![(e->Occupied_0, e->Occupied_1)],
        !(e is Occupied) ==> kv_seq(seq![e]) == Seq::<(K, V)>::empty(),
        count_ghost(seq![e]) == if e is Tombstone {
            1nat
        } else {
            0nat
        },
{
    let s = seq![e];
    assert(s.len() == 1);
    assert(s[0] == e);
    assert(s.drop_first() =~= Seq::<Entry<K, V>>::empty());
    assert(kv_seq(Seq::<Entry<K, V>>::empty()) == Seq::<(K, V)>::empty());
    assert(count_ghost(Seq::<Entry<K, V>>::empty()) == 0);
    assert(kv_seq(s.drop_first()) == Seq::<(K, V)>::empty());
    assert(count_ghost(s.drop_first()) == 0);
    if e is Occupied {
        assert(kv_seq(s) =~= seq![(e->Occupied_0, e->Occupied_1)]);
    }
}

/// How replacing one slot changes the occupancy counts.
proof fn lemma_counts_update<K: AsBytes, V>(s: Seq<Entry<K, V>>, i: int, e: Entry<K, V>)
    requires
        0 <= i < s.len(),
    ensures
        count_full(s.update(i, e)) + (if s[i] is Occupied { 1nat } else { 0nat })
            == count_full(s) + (if e is Occupied { 1nat } else { 0nat }),
        count_ghost(s.update(i, e)) + (if s[i] is Tombstone { 1nat } else { 0nat })
            == count_ghost(s) + (if e is Tombstone { 1nat } else { 0nat }),
{
    let pre = s.take(i);
    let post = s.skip(i + 1);
    assert(s =~= pre + (seq![s[i]] + post));
    assert(s.update(i, e) =~= pre + (seq![e] + post));
    lemma_kv_app(seq![s[i]], post);
    lemma_kv_app(seq![e], post);
    lemma_kv_app(pre, seq![s[i]] + post);
    lemma_kv_app(pre, seq![e] + post);
    lemma_kv_single(s[i]);
    lemma_kv_single(e);
}

/// Replacing a slot by one with the same key and cached hash preserves the
/// open-addressing invariant: every probe stops exactly where it did.
proof fn lemma_replace_same_key<K: AsBytes, V>(
    s: Seq<Entry<K, V>>,
    lg: nat,
    i: int,
    e2: Entry<K, V>,
)
    requires
        table_wf(s, lg),
        s.len() == pow2(lg),
        0 <= i < s.len(),
        s[i] is Occupied || s[i] is Tombstone,
        e2 is Occupied || e2 is Tombstone,
        e2 is Occupied ==> s[i] is Occupied,
        slot_bytes(e2) == slot_bytes(s[i]),
        entry_hash_ok(e2),
    ensures
        table_wf(s.update(i, e2), lg),
{
    let s2 = s.update(i, e2);
    assert forall|kb2: Seq<u8>, h2: u64, p: int| 0 <= p < s.len() implies (
    #[trigger] s2[p].spec_matches(kb2, h2)) == s[p].spec_matches(kb2, h2) by {
        if p == i {
            assert(entry_hash_ok(s[i]));
        }
    }
    assert forall|j: int| 0 <= j < s2.len() implies entry_hash_ok(#[trigger] s2[j]) by {
        if j != i {
            assert(s2[j] == s[j]);
        }
    }
    assert forall|j: int| 0 <= j < s2.len() && (#[trigger] s2[j]) is Occupied implies reaches(
        s2,
        lg,
        key_hash(slot_bytes(s2[j])),
        slot_bytes(s2[j]),
        j,
    ) by {
        let jw = if j == i {
            i
        } else {
            j
        };
        assert(s[jw] is Occupied);
        let kbj = slot_bytes(s[jw]);
        let hj = key_hash(kbj);

        assert(reaches(s, lg, hj, kbj, jw));
        let nj = choose|m: nat| #[trigger] reaches_at(s, lg, hj, kbj, jw, m);
        assert forall|m: nat| m < nj implies !((#[trigger] slot_on_path(s2, lg, hj, m)) is Empty)
            && !slot_on_path(s2, lg, hj, m).spec_matches(kbj, hj) by {
            let p = probe_at(hj, pow2(lg), m) as int;
            lemma_probe_at_bound(hj, pow2(lg), m);
            assert(!(slot_on_path(s, lg, hj, m) is Empty));
            assert(!slot_on_path(s, lg, hj, m).spec_matches(kbj, hj));
            assert(s2[p].spec_matches(kbj, hj) == s[p].spec_matches(kbj, hj));
            if p == i {
                assert(!(s2[p] is Empty));
            }
        }
        assert(slot_bytes(s2[j]) == kbj && key_hash(slot_bytes(s2[j])) == hj);
        assert(reaches_at(s2, lg, hj, kbj, j, nj));
    }
}

/// Writing a fresh key into the empty or tombstoned slot its probe resolved
/// to preserves the invariant and inserts the binding into the model.
proof fn lemma_insert_fresh<K: AsBytes, V>(
    s: Seq<Entry<K, V>>,
    lg: nat,
    i: int,
    k: K,
    v: V,
    h: u64,
    n: nat,
)
    requires
        table_wf(s, lg),
        s.len() == pow2(lg),
        0 <= i < s.len(),
        !(s[i] is Occupied),
        h == key_hash(k.bytes()),
        reaches_at(s, lg, h, k.bytes(), i, n),
        !has_key(s, k.bytes()),
    ensures
        table_wf(s.update(i, Entry::Occupied(k, v, h)), lg),
        keys_unique(s.update(i, Entry::Occupied(k, v, h))),
        map_of(s.update(i, Entry::Occupied(k, v, h))) == map_of(s).insert(k.bytes(), v),
{
    let kb = k.bytes();
    let e2 = Entry::<K, V>::Occupied(k, v, h);
    let s2 = s.update(i, e2);
    let cap = pow2(lg);
    lemma_wf_unique(s, lg);
    lemma_pow2_pos(lg);
    // the slot's own probe path, cut at its first visit to the slot
    lemma_probe_at_bound(h, cap, n);
    crate::probe::lemma_least_visit(h, cap, i as nat, n);
    let n0 = choose|n0: nat|
        #![trigger probe_at(h, cap, n0)]
        n0 <= n && probe_at(h, cap, n0) == i as nat && (forall|m: nat|
            m < n0 ==> #[trigger] probe_at(h, cap, m) != i as nat);
    // hash caches are still right
    assert forall|j: int| 0 <= j < s2.len() implies entry_hash_ok(#[trigger] s2[j]) by {
        if j != i {
            assert(s2[j] == s[j]);
        }
    }
    // keys stay unique
    assert forall|j1: int, j2: int|
        0 <= j1 < j2 < s2.len() && (#[trigger] s2[j1]) is Occupied && (#[trigger] s2[j2])
            is Occupied implies slot_bytes(s2[j1]) != slot_bytes(s2[j2]) by {
        if j1 == i {
            if slot_bytes(s2[j2]) == kb {
                assert(s[j2] is Occupied && slot_bytes(s[j2]) == kb);
            }
        } else if j2 == i {
            if slot_bytes(s2[j1]) == kb {
                assert(s[j1] is Occupied && slot_bytes(s[j1]) == kb);
            }
        }
    }
    // every occupied slot is still reached by its probe
    assert forall|j: int| 0 <= j < s2.len() && (#[trigger] s2[j]) is Occupied implies reaches(
        s2,
        lg,
        key_hash(slot_bytes(s2[j])),
        slot_bytes(s2[j]),
        j,
    ) by {
        if j == i {
            assert forall|m: nat| m < n0 implies !((#[trigger] slot_on_path(
                s2,
                lg,
                h,
                m,
            )) is Empty) && !slot_on_path(s2, lg, h, m).spec_matches(kb, h) by {
                let p = probe_at(h, cap, m) as int;
                lemma_probe_at_bound(h, cap, m);
                assert(p != i);
                assert(s2[p] == s[p]);
                assert(!(slot_on_path(s, lg, h, m) is Empty));
                assert(!slot_on_path(s, lg, h, m).spec_matches(kb, h));
            }
            assert(slot_bytes(s2[i]) == kb && key_hash(kb) == h);
            assert(reaches_at(s2, lg, h, kb, i, n0));
        } else {
            assert(s2[j] == s[j]);
            let kbj = slot_bytes(s[j]);
            let hj = key_hash(kbj);
            assert(reaches(s, lg, hj, kbj, j));
            let nj = choose|m: nat| #[trigger] reaches_at(s, lg, hj, kbj, j, m);
            assert forall|m: nat| m < nj implies !((#[trigger] slot_on_path(
                s2,
                lg,
                hj,
                m,
            )) is Empty) && !slot_on_path(s2, lg, hj, m).spec_matches(kbj, hj) by {
                let p = probe_at(hj, cap, m) as int;
                lemma_probe_at_bound(hj, cap, m);
                assert(!(slot_on_path(s, lg, hj, m) is Empty));
                assert(!slot_on_path(s, lg, hj, m).spec_matches(kbj, hj));
                if p == i {
                    // the old slot was passable, so it was a tombstone; the
                    // new occupant holds a different key, so it is passable
                    assert(s[i] is Tombstone);
                    if kb == kbj {
                        assert(has_key(s, kb));
                    }
                    assert(!s2[p].spec_matches(kbj, hj));
                }
            }
            assert(reaches_at(s2, lg, hj, kbj, j, nj));
        }
    }
    // the model gains exactly the new binding
    assert forall|kb2: Seq<u8>| #[trigger] has_key(s2, kb2) implies kb2 == kb || has_key(
        s,
        kb2,
    ) by {
        if kb2 != kb {
            let j = choose|j: int|
                0 <= j < s2.len() && (#[trigger] s2[j]) is Occupied && slot_bytes(s2[j]) == kb2;
            assert(j != i);
            assert(s[j] is Occupied && slot_bytes(s[j]) == kb2);
        }
    }
    assert forall|kb2: Seq<u8>| #[trigger] has_key(s, kb2) implies has_key(s2, kb2) by {
        let j = choose|j: int|
            0 <= j < s.len() && (#[trigger] s[j]) is Occupied && slot_bytes(s[j]) == kb2;
        assert(j != i);
        assert(s2[j] is Occupied && slot_bytes(s2[j]) == kb2);
    }
    assert(s2[i] is Occupied && slot_bytes(s2[i]) == kb);
    assert(has_key(s2, kb));
    assert forall|kb2: Seq<u8>| #[trigger] map_of(s2).dom().contains(kb2) implies map_of(s2)[kb2]
        == map_of(s).insert(kb, v)[kb2] by {
        if kb2 == kb {
            lemma_key_index_is(s2, i);
        } else {
            let j = choose|j: int|
                0 <= j < s.len() && (#[trigger] s[j]) is Occupied && slot_bytes(s[j]) == kb2;
            assert(j != i);
            lemma_key_index_is(s, j);
            lemma_key_index_is(s2, j);
        }
    }
    assert(map_of(s2) =~= map_of(s).insert(kb, v));
}

/// Replacing the value of an occupied slot overwrites that key's binding in
/// the model.
proof fn lemma_overwrite_model<K: AsBytes, V>(s: Seq<Entry<K, V>>, lg: nat, i: int, v: V)
    requires
        table_wf(s, lg),
        s.len() == pow2(lg),
        0 <= i < s.len(),
        s[i] is Occupied,
    ensures
        table_wf(s.update(i, Entry::Occupied(s[i]->Occupied_0, v, s[i]->Occupied_2)), lg),
        keys_unique(s.update(i, Entry::Occupied(s[i]->Occupied_0, v, s[i]->Occupied_2))),
        map_of(s.update(i, Entry::Occupied(s[i]->Occupied_0, v, s[i]->Occupied_2))) == map_of(
            s,
        ).insert(slot_bytes(s[i]), v),
{
    let kb = slot_bytes(s[i]);
    let e2 = Entry::<K, V>::Occupied(s[i]->Occupied_0, v, s[i]->Occupied_2);
    let s2 = s.update(i, e2);
    lemma_wf_unique(s, lg);
    assert(entry_hash_ok(s[i]));
    lemma_replace_same_key(s, lg, i, e2);
    assert forall|j1: int, j2: int|
        0 <= j1 < j2 < s2.len() && (#[trigger] s2[j1]) is Occupied && (#[trigger] s2[j2])
            is Occupied implies slot_bytes(s2[j1]) != slot_bytes(s2[j2]) by {
        assert(s2[j1] is Occupied == s[j1] is Occupied && slot_bytes(s2[j1]) == slot_bytes(s[j1]));
        assert(s2[j2] is Occupied == s[j2] is Occupied && slot_bytes(s2[j2]) == slot_bytes(s[j2]));
    }
    assert forall|kb2: Seq<u8>| #[trigger] has_key(s2, kb2) == has_key(s, kb2) by {
        if has_key(s2, kb2) {
            let j = choose|j: int|
                0 <= j < s2.len() && (#[trigger] s2[j]) is Occupied && slot_bytes(s2[j]) == kb2;
            assert(s[j] is Occupied && slot_bytes(s[j]) == kb2);
        }
        if has_key(s, kb2) {
            let j = choose|j: int|
                0 <= j < s.len() && (#[trigger] s[j]) is Occupied && slot_bytes(s[j]) == kb2;
            assert(s2[j] is Occupied && slot_bytes(s2[j]) == kb2);
        }
    }
    assert forall|kb2: Seq<u8>| #[trigger] map_of(s2).dom().contains(kb2) implies map_of(s2)[kb2]
        == map_of(s).insert(kb, v)[kb2] by {
        if kb2 == kb {
            lemma_key_index_is(s2, i);
        } else {
            let j = choose|j: int|
                0 <= j < s.len() && (#[trigger] s[j]) is Occupied && slot_bytes(s[j]) == kb2;
            assert(j != i);
            lemma_key_index_is(s, j);
            assert(s2[j] == s[j]);
            lemma_key_index_is(s2, j);
        }
    }
    lemma_key_index_is(s2, i);
    assert(map_of(s2) =~= map_of(s).insert(kb, v));
}

/// Tombstoning an occupied slot removes that key's binding from the model
/// and nothing else.
proof fn lemma_remove_model<K: AsBytes, V>(s: Seq<Entry<K, V>>, lg: nat, i: int)
    requires
        table_wf(s, lg),
        s.len() == pow2(lg),
        0 <= i < s.len(),
        s[i] is Occupied,
    ensures
        table_wf(s.update(i, Entry::Tombstone(s[i]->Occupied_0, s[i]->Occupied_2)), lg),
        keys_unique(s.update(i, Entry::Tombstone(s[i]->Occupied_0, s[i]->Occupied_2))),
        map_of(s.update(i, Entry::Tombstone(s[i]->Occupied_0, s[i]->Occupied_2))) == map_of(
            s,
        ).remove(slot_bytes(s[i])),
{
    let kb = slot_bytes(s[i]);
    let e2 = Entry::<K, V>::Tombstone(s[i]->Occupied_0, s[i]->Occupied_2);
    let s2 = s.update(i, e2);
    lemma_wf_unique(s, lg);
    assert(entry_hash_ok(s[i]));
    lemma_replace_same_key(s, lg, i, e2);
    assert forall|j1: int, j2: int|
        0 <= j1 < j2 < s2.len() && (#[trigger] s2[j1]) is Occupied && (#[trigger] s2[j2])
            is Occupied implies slot_bytes(s2[j1]) != slot_bytes(s2[j2]) by {
        assert(j1 != i && j2 != i);
        assert(s2[j1] == s[j1] && s2[j2] == s[j2]);
    }
    assert forall|kb2: Seq<u8>| #[trigger] has_key(s2, kb2) == (has_key(s, kb2) && kb2 != kb) by {
        if has_key(s2, kb2) {
            let j = choose|j: int|
                0 <= j < s2.len() && (#[trigger] s2[j]) is Occupied && slot_bytes(s2[j]) == kb2;
            assert(j != i);
            assert(s[j] is Occupied && slot_bytes(s[j]) == kb2);
            if kb2 == kb {
                lemma_occupied_unique(s, lg, j, i);
            }
        }
        if has_key(s, kb2) && kb2 != kb {
            let j = choose|j: int|
                0 <= j < s.len() && (#[trigger] s[j]) is Occupied && slot_bytes(s[j]) == kb2;
            assert(j != i);
            assert(s2[j] is Occupied && slot_bytes(s2[j]) == kb2);
        }
    }
    assert forall|kb2: Seq<u8>| #[trigger] map_of(s2).dom().contains(kb2) implies map_of(s2)[kb2]
        == map_of(s).remove(kb)[kb2] by {
        let j = choose|j: int|
            0 <= j < s.len() && (#[trigger] s[j]) is Occupied && slot_bytes(s[j]) == kb2;
        assert(j != i);
        lemma_key_index_is(s, j);
        assert(s2[j] == s[j]);
        lemma_key_index_is(s2, j);
    }
    assert(map_of(s2) =~= map_of(s).remove(kb));
}

impl<K: AsBytes, V> HashMap<K, V> {
    /// Insert a binding whose hash is already computed, without checking the
    /// load factor: the caller (a fresh insert, or a rehash) has made room.
    /// Returns the value previously bound to the key, if any.
    fn swap_with_hash(&mut self, key: K, hash: u64, value: V) -> (prev: Option<V>)
        requires
            old(self).wf(),
            hash == key_hash(key.bytes()),
            3 * (old(self).spec_len() + old(self).spec_ghosts()) <= 2 * old(self).spec_capacity(),
        ensures
            final(self).wf(),
            final(self)@ == old(self)@.insert(key.bytes(), value),
            final(self).spec_capacity() == old(self).spec_capacity(),
            final(self).spec_ghosts() <= old(self).spec_ghosts(),
            match prev {
                Some(v) => old(self)@.dom().contains(key.bytes()) && v == old(self)@[key.bytes()]
                    && final(self).spec_len() == old(self).spec_len() && final(self).spec_ghosts()
                    == old(self).spec_ghosts(),
                None => !old(self)@.dom().contains(key.bytes()) && final(self).spec_len() == old(
                    self,
                ).spec_len() + 1,
            },
    {
        let ghost s0 = self.table@;
        let ghost lg = self.log_cap@;
        let ghost kb = key.bytes();
        let ghost gkey = key;
        let ghost gval = value;
        proof {
            lemma_wf_unique(s0, lg);
        }
        let i = self.probe(&key, hash);
        let ghost n_reach = choose|n: nat| #[trigger] reaches_at(s0, lg, hash, kb, i as int, n);
        let mut taken = Entry::Empty;
        self.table.set_and_swap(i, &mut taken);
        match taken {
            Entry::Empty => {
                self.table.set(i, Entry::Occupied(key, value, hash));
                proof {
                    let e2 = Entry::<K, V>::Occupied(gkey, gval, hash);
                    assert(self.table@ =~= s0.update(i as int, e2));
                    lemma_insert_fresh(s0, lg, i as int, gkey, gval, hash, n_reach);
                    lemma_counts_update(s0, i as int, e2);
                    assert(count_full(self.table@) == count_full(s0) + 1);
                }
                self.length = self.length + 1;
                None
            },
            Entry::Tombstone(tk, th) => {
                self.table.set(i, Entry::Occupied(key, value, hash));
                proof {
                    let e2 = Entry::<K, V>::Occupied(gkey, gval, hash);
                    assert(s0[i as int] == Entry::<K, V>::Tombstone(tk, th));
                    assert(self.table@ =~= s0.update(i as int, e2));
                    lemma_insert_fresh(s0, lg, i as int, gkey, gval, hash, n_reach);
                    lemma_counts_update(s0, i as int, e2);
                    assert(count_full(self.table@) == count_full(s0) + 1);
                    assert(count_ghost(self.table@) + 1 == count_ghost(s0));
                }
                self.length = self.length + 1;
                self.ghosts = self.ghosts - 1;
                None
            },
            Entry::Occupied(k_old, v_old, h_old) => {
                self.table.set(i, Entry::Occupied(k_old, value, h_old));
                proof {
                    assert(s0[i as int] is Occupied);
                    assert(slot_bytes(s0[i as int]) == kb);
                    assert(self.table@ =~= s0.update(
                        i as int,
                        Entry::Occupied(s0[i as int]->Occupied_0, gval, s0[i as int]->Occupied_2),
                    ));
                    lemma_overwrite_model(s0, lg, i as int, gval);
                    lemma_counts_update(
                        s0,
                        i as int,
                        Entry::Occupied(s0[i as int]->Occupied_0, gval, s0[i as int]->Occupied_2),
                    );
                    lemma_key_index_is(s0, i as int);
                }
                Some(v_old)
            },
        }
    }
}

impl<K: AsBytes, V> HashMap<K, V> {
    /// Rebuild the table at `new_capacity` slots: reinsert every live
    /// binding with its cached hash, discard every tombstone, and replace
    /// the old storage wholesale.  This is the only place tombstones are
    /// reclaimed.
    fn do_expand(&mut self, new_capacity: usize, Ghost(k2): Ghost<nat>)
        requires
            old(self).wf(),
            new_capacity as nat == pow2(k2),
            k2 >= 3,
            new_capacity >= 8,
            new_capacity as nat <= usize::MAX as nat / 16,
            3 * old(self).spec_len() <= 2 * (new_capacity as nat),
        ensures
            final(self).wf(),
            final(self)@ == old(self)@,
            final(self).spec_len() == old(self).spec_len(),
            final(self).spec_ghosts() == 0,
            final(self).spec_capacity() == new_capacity as nat,
    {
        let ghost s0 = self.table@;
        let ghost lg0 = self.log_cap@;
        proof {
            lemma_wf_unique(s0, lg0);
            assert(s0.take(0) =~= Seq::<Entry<K, V>>::empty());
            assert(kv_seq(Seq::<Entry<K, V>>::empty()) == Seq::<(K, V)>::empty());
            lemma_all_empty(Seq::<Entry<K, V>>::empty());
            assert(map_of(Seq::<Entry<K, V>>::empty()) =~= Map::<Seq<u8>, V>::empty());
        }
        let mut new_tbl: HashMap<K, V> = HashMap::with_log_capacity(new_capacity, Ghost(k2));
        let n = self.table.len();
        let mut idx: usize = 0;
        while idx < n
            invariant
                idx <= n,
                keys_unique(s0),
                table_wf(s0, lg0),
                n == s0.len(),
                self.table@.len() == n,
                forall|j: int| idx <= j < n ==> self.table@[j] == s0[j],
                new_tbl.wf(),
                new_tbl@ == map_of(s0.take(idx as int)),
                new_tbl.spec_len() == count_full(s0.take(idx as int)),
                new_tbl.spec_ghosts() == 0,
                new_tbl.spec_capacity() == new_capacity as nat,
                3 * count_full(s0) <= 2 * (new_capacity as nat),
            decreases n - idx,
        {
            let mut taken = Entry::Empty;
            self.table.set_and_swap(idx, &mut taken);
            proof {
                lemma_take_step(s0, idx as int);
                lemma_count_take_le(s0, idx as int + 1);
            }
            match taken {
                Entry::Occupied(k, v, h) => {
                    proof {
                        assert(s0[idx as int] == Entry::<K, V>::Occupied(k, v, h));
                        assert(entry_hash_ok(s0[idx as int]));
                        assert(h == key_hash(k.bytes()));
                        assert(count_full(s0.take(idx as int)) + 1 <= count_full(s0));
                    }
                    let _ = new_tbl.swap_with_hash(k, h, v);
                },
                _ => {
                    proof {
                        assert(!(s0[idx as int] is Occupied));
                    }
                },
            }
            idx += 1;
        }
        proof {
            assert(s0.take(n as int) =~= s0);
        }
        *self = new_tbl;
    }

    /// Grow or rehash when the load demands it: double the capacity when
    /// live entries pass two thirds of it, or rehash at the same capacity to
    /// flush tombstones when live and dead entries together reach that
    /// bound.  The length bound is a machine limit: a table within it fits
    /// in the address space with room to double.
    fn expand(&mut self)
        requires
            old(self).wf(),
            old(self).spec_len() <= usize::MAX as nat / 64,
        ensures
            final(self).wf(),
            final(self)@ == old(self)@,
            final(self).spec_len() == old(self).spec_len(),
            3 * (final(self).spec_len() + final(self).spec_ghosts())
                <= 2 * final(self).spec_capacity(),
            final(self).spec_capacity() >= old(self).spec_capacity(),
            final(self).spec_capacity() == old(self).spec_capacity()
                || (final(self).spec_capacity() == 2 * old(self).spec_capacity()
                    && 3 * old(self).spec_len() > 2 * old(self).spec_capacity()),
    {
        let capacity = self.capacity;
        proof {
            lemma2_to64();
            if self.log_cap@ > 3 {
                lemma_pow2_strictly_increases(3, self.log_cap@);
            }
            assert(capacity >= 8);
            let q = usize::MAX as int / 64;
            vstd::arithmetic::div_mod::lemma_fundamental_div_mod(usize::MAX as int, 64);
            vstd::arithmetic::div_mod::lemma_fundamental_div_mod(usize::MAX as int, 16);
            assert(usize::MAX as int / 16 >= 4 * q) by (nonlinear_arith)
                requires
                    usize::MAX as int == 64 * q + usize::MAX as int % 64,
                    usize::MAX as int == 16 * (usize::MAX as int / 16) + usize::MAX as int % 16,
                    0 <= usize::MAX as int % 64 < 64,
                    0 <= usize::MAX as int % 16 < 16,
            ;
        }
        if self.length * 3 > capacity * 2 {
            proof {
                vstd::arithmetic::power2::lemma_pow2_unfold(self.log_cap@ + 1);
            }
            self.do_expand(capacity * 2, Ghost(self.log_cap@ + 1));
        } else if (self.length + self.ghosts) * 3 >= capacity * 2 {
            self.do_expand(capacity, Ghost(self.log_cap@));
        }
    }
}

impl<K: AsBytes, V> HashMap<K, V> {
    /// Insert a binding, growing or rehashing first when the load demands
    /// it; return the value previously bound to the key, if any.  The
    /// length bound is a machine limit: the table must fit in the address
    /// space with room to double.
    pub fn insert(&mut self, k: K, v: V) -> (prev: Option<V>)
        requires
            old(self).wf(),
            old(self).spec_len() <= usize::MAX as nat / 64,
        ensures
            final(self).wf(),
            final(self)@ == old(self)@.insert(k.bytes(), v),
            final(self).spec_capacity() >= old(self).spec_capacity(),
            final(self).spec_capacity() == old(self).spec_capacity()
                || (final(self).spec_capacity() == 2 * old(self).spec_capacity()
                    && 3 * old(self).spec_len() > 2 * old(self).spec_capacity()),
            match prev {
                Some(pv) => old(self)@.dom().contains(k.bytes()) && pv == old(self)@[k.bytes()]
                    && final(self).spec_len() == old(self).spec_len(),
                None => !old(self)@.dom().contains(k.bytes()) && final(self).spec_len() == old(
                    self,
                ).spec_len() + 1,
            },
    {
        self.expand();
        let key_bytes = k.as_byte_vec();
        let hash = djbhash(key_bytes.as_slice());
        self.swap_with_hash(k, hash, v)
    }

    /// Insert a binding and hand back what it displaced: a second name for
    /// [`HashMap::insert`].
    pub fn swap(&mut self, k: K, v: V) -> (prev: Option<V>)
        requires
            old(self).wf(),
            old(self).spec_len() <= usize::MAX as nat / 64,
        ensures
            final(self).wf(),
            final(self)@ == old(self)@.insert(k.bytes(), v),
            match prev {
                Some(pv) => old(self)@.dom().contains(k.bytes()) && pv == old(self)@[k.bytes()]
                    && final(self).spec_len() == old(self).spec_len(),
                None => !old(self)@.dom().contains(k.bytes()) && final(self).spec_len() == old(
                    self,
                ).spec_len() + 1,
            },
    {
        self.insert(k, v)
    }

    /// Look a key up through any type with the same byte form: the
    /// equivalence lookup that spares callers an owned key.  Neither
    /// mutates nor resizes.
    pub fn find_equiv<Q: AsBytes>(&self, k: &Q) -> (r: Option<&V>)
        requires
            self.wf(),
        ensures
            match r {
                Some(v) => self@.dom().contains(k.bytes()) && *v == self@[k.bytes()],
                None => !self@.dom().contains(k.bytes()),
            },
    {
        let key_bytes = k.as_byte_vec();
        let hash = djbhash(key_bytes.as_slice());
        let i = self.probe_equiv(k, hash);
        match &self.table[i] {
            Entry::Occupied(_, val, _) => {
                proof {
                    lemma_wf_unique(self.table@, self.log_cap@);
                    assert(has_key(self.table@, k.bytes()));
                    lemma_key_index_is(self.table@, i as int);
                }
                Some(val)
            },
            _ => None,
        }
    }

    /// Look an owned key up.
    pub fn find<'a>(&'a self, key: &K) -> (r: Option<&'a V>)
        requires
            self.wf(),
        ensures
            match r {
                Some(v) => self@.dom().contains(key.bytes()) && *v == self@[key.bytes()],
                None => !self@.dom().contains(key.bytes()),
            },
    {
        self.find_equiv(key)
    }

    /// Look an owned key up: a second name for [`HashMap::find`].
    pub fn get(&self, k: &K) -> (r: Option<&V>)
        requires
            self.wf(),
        ensures
            match r {
                Some(v) => self@.dom().contains(k.bytes()) && *v == self@[k.bytes()],
                None => !self@.dom().contains(k.bytes()),
            },
    {
        self.find_equiv(k)
    }

    /// Look a key up through any type with the same byte form: a second
    /// name for [`HashMap::find_equiv`].
    pub fn get_equiv<Q: AsBytes>(&self, k: &Q) -> (r: Option<&V>)
        requires
            self.wf(),
        ensures
            match r {
                Some(v) => self@.dom().contains(k.bytes()) && *v == self@[k.bytes()],
                None => !self@.dom().contains(k.bytes()),
            },
    {
        self.find_equiv(k)
    }

    /// Remove a key's binding, leaving a tombstone so that other probe
    /// sequences keep their course; return the removed value, if any.
    /// Like insertion, removal first rehashes when the load demands it,
    /// which is what reclaims tombstones.
    pub fn pop(&mut self, key: &K) -> (removed: Option<V>)
        requires
            old(self).wf(),
            old(self).spec_len() <= usize::MAX as nat / 64,
        ensures
            final(self).wf(),
            final(self)@ == old(self)@.remove(key.bytes()),
            final(self).spec_capacity() >= old(self).spec_capacity(),
            final(self).spec_capacity() == old(self).spec_capacity()
                || (final(self).spec_capacity() == 2 * old(self).spec_capacity()
                    && 3 * old(self).spec_len() > 2 * old(self).spec_capacity()),
            match removed {
                Some(v) => old(self)@.dom().contains(key.bytes()) && v == old(
                    self,
                )@[key.bytes()] && final(self).spec_len() + 1 == old(self).spec_len(),
                None => !old(self)@.dom().contains(key.bytes()) && final(self).spec_len() == old(
                    self,
                ).spec_len(),
            },
    {
        self.expand();
        let ghost s1 = self.table@;
        let ghost lg = self.log_cap@;
        let ghost kb = key.bytes();
        proof {
            lemma_wf_unique(s1, lg);
        }
        let key_bytes = key.as_byte_vec();
        let hash = djbhash(key_bytes.as_slice());
        let i = self.probe(key, hash);
        let mut taken = Entry::Empty;
        self.table.set_and_swap(i, &mut taken);
        match taken {
            Entry::Occupied(ko, vo, ho) => {
                proof {
                    assert(s1[i as int] is Occupied && slot_bytes(s1[i as int]) == kb);
                    lemma_key_index_is(s1, i as int);
                    lemma_remove_model(s1, lg, i as int);
                    lemma_counts_update(
                        s1,
                        i as int,
                        Entry::Tombstone(s1[i as int]->Occupied_0, s1[i as int]->Occupied_2),
                    );
                }
                self.table.set(i, Entry::Tombstone(ko, ho));
                self.length = self.length - 1;
                self.ghosts = self.ghosts + 1;
                proof {
                    assert(self.table@ =~= s1.update(
                        i as int,
                        Entry::Tombstone(s1[i as int]->Occupied_0, s1[i as int]->Occupied_2),
                    ));
                }
                Some(vo)
            },
            Entry::Empty => {
                self.table.set(i, Entry::Empty);
                proof {
                    assert(self.table@ =~= s1);
                    assert(!has_key(s1, kb));
                    assert(map_of(s1).remove(kb) =~= map_of(s1));
                }
                None
            },
            Entry::Tombstone(tk, th) => {
                proof {
                    assert(s1[i as int] == Entry::<K, V>::Tombstone(tk, th));
                }
                self.table.set(i, Entry::Tombstone(tk, th));
                proof {
                    assert(self.table@ =~= s1);
                    assert(!has_key(s1, kb));
                    assert(map_of(s1).remove(kb) =~= map_of(s1));
                }
                None
            },
        }
    }

    /// The growth policy's running bound: live entries never exceed two
    /// thirds of the capacity by more than the single binding the latest
    /// insert added, and the capacity is always a power of two, at least 8.
    pub proof fn lemma_load_factor(&self)
        requires
            self.wf(),
        ensures
            3 * self.spec_len() <= 2 * self.spec_capacity() + 3,
            self.spec_capacity() >= 8,
            exists|k: nat| self.spec_capacity() == #[trigger] pow2(k),
    {
        lemma2_to64();
        if self.log_cap@ > 3 {
            lemma_pow2_strictly_increases(3, self.log_cap@);
        }
        assert(self.spec_capacity() == pow2(self.log_cap@));
    }

    /// Remove a key's binding: a second name for [`HashMap::pop`].
    pub fn remove(&mut self, key: &K) -> (removed: Option<V>)
        requires
            old(self).wf(),
            old(self).spec_len() <= usize::MAX as nat / 64,
        ensures
            final(self).wf(),
            final(self)@ == old(self)@.remove(key.bytes()),
            final(self).spec_capacity() >= old(self).spec_capacity(),
            final(self).spec_capacity() == old(self).spec_capacity()
                || (final(self).spec_capacity() == 2 * old(self).spec_capacity()
                    && 3 * old(self).spec_len() > 2 * old(self).spec_capacity()),
            match removed {
                Some(v) => old(self)@.dom().contains(key.bytes()) && v == old(
                    self,
                )@[key.bytes()] && final(self).spec_len() + 1 == old(self).spec_len(),
                None => !old(self)@.dom().contains(key.bytes()) && final(self).spec_len() == old(
                    self,
                ).spec_len(),
            },
    {
        self.pop(key)
    }
}

/// The abstract map over a prefix of the slots has exactly as many
/// bindings as the prefix has occupied slots.
proof fn lemma_model_size<K: AsBytes, V>(s: Seq<Entry<K, V>>, i: int)
    requires
        keys_unique(s),
        0 <= i <= s.len(),
    ensures
        map_of(s.take(i)).dom().finite(),
        map_of(s.take(i)).dom().len() == count_full(s.take(i)),
    decreases i,
{
    if i == 0 {
        assert(s.take(0) =~= Seq::<Entry<K, V>>::empty());
        lemma_all_empty(Seq::<Entry<K, V>>::empty());
        assert(map_of(s.take(0)).dom() =~= Set::<Seq<u8>>::empty());
    } else {
        lemma_model_size(s, i - 1);
        lemma_take_step(s, i - 1);
        if s[i - 1] is Occupied {
            let kb = slot_bytes(s[i - 1]);
            assert(map_of(s.take(i)).dom() =~= map_of(s.take(i - 1)).dom().insert(kb));
            assert(!map_of(s.take(i - 1)).dom().contains(kb));
        }
    }
}

impl<K: AsBytes, V> HashMap<K, V> {
    /// The stored length is the number of bindings of the abstract map.
    pub proof fn lemma_len_is_model_size(&self)
        requires
            self.wf(),
        ensures
            self@.dom().finite(),
            self@.dom().len() == self.spec_len(),
    {
        lemma_wf_unique(self.table@, self.log_cap@);
        lemma_model_size(self.table@, self.table@.len() as int);
        assert(self.table@.take(self.table@.len() as int) =~= self.table@);
    }
}

/// Walking one slot forward drops that slot's binding, if any, from the
/// bindings that remain.
proof fn lemma_kv_skip_step<K: AsBytes, V>(s: Seq<Entry<K, V>>, p: int)
    requires
        0 <= p < s.len(),
    ensures
        s[p] is Occupied ==> kv_seq(s.skip(p)) == seq![(s[p]->Occupied_0, s[p]->Occupied_1)]
            + kv_seq(s.skip(p + 1)),
        !(s[p] is Occupied) ==> kv_seq(s.skip(p)) == kv_seq(s.skip(p + 1)),
{
    assert(s.skip(p).len() > 0);
    assert(s.skip(p)[0] == s[p]);
    assert(s.skip(p).drop_first() =~= s.skip(p + 1));
}

/// A single-pass cursor over the live bindings of a table, in storage
/// order.
pub struct HashMapIterator<'a, K, V> {
    entries: &'a Vec<Entry<K, V>>,
    pos: usize,
}

impl<'a, K: AsBytes, V> HashMapIterator<'a, K, V> {
    /// The cursor stays within the slot array.
    pub closed spec fn inv(&self) -> bool {
        self.pos <= self.entries@.len()
    }

    /// The bindings not yet produced, in storage order.
    pub closed spec fn remaining(&self) -> Seq<(K, V)> {
        kv_seq(self.entries@.skip(self.pos as int))
    }

    /// Advance to the next live binding, skipping empty and tombstoned
    /// slots, and return its key and value.
    pub fn next(&mut self) -> (r: Option<(&'a K, &'a V)>)
        requires
            old(self).inv(),
        ensures
            final(self).inv(),
            match r {
                Some(kv) => old(self).remaining().len() > 0 && (*kv.0, *kv.1) == old(
                    self,
                ).remaining()[0] && final(self).remaining() == old(self).remaining().drop_first(),
                None => old(self).remaining().len() == 0 && final(self).remaining() == old(
                    self,
                ).remaining(),
            },
    {
        let entries = self.entries;
        let n = entries.len();
        let ghost rem0 = self.remaining();
        #[verifier::loop_isolation(false)]
        while self.pos < n
            invariant
                self.pos <= n,
                n == entries@.len(),
                self.entries == entries,
                kv_seq(entries@.skip(self.pos as int)) == rem0,
            decreases n - self.pos,
        {
            let p = self.pos;
            proof {
                lemma_kv_skip_step(entries@, p as int);
            }
            match &entries[p] {
                Entry::Occupied(kk, vv, _) => {
                    self.pos = p + 1;
                    proof {
                        assert(rem0 == seq![(entries@[p as int]->Occupied_0, entries@[p as int]->Occupied_1)]
                            + kv_seq(entries@.skip(p as int + 1)));
                        assert(rem0[0] == (entries@[p as int]->Occupied_0, entries@[p as int]->Occupied_1));
                        assert(rem0.drop_first() =~= kv_seq(entries@.skip(p as int + 1)));
                    }
                    return Some((kk, vv));
                },
                _ => {
                    self.pos = p + 1;
                },
            }
        }
        proof {
            assert(entries@.skip(n as int) =~= Seq::<Entry<K, V>>::empty());
            assert(kv_seq(Seq::<Entry<K, V>>::empty()) == Seq::<(K, V)>::empty());
        }
        None
    }
}

/// A single-pass cursor over the live bindings of a table: a second name
/// for [`HashMapIterator`].
pub struct HashMapIter<'a, K, V> {
    inner: HashMapIterator<'a, K, V>,
}

impl<'a, K: AsBytes, V> HashMapIter<'a, K, V> {
    /// The cursor stays within the slot array.
    pub closed spec fn inv(&self) -> bool {
        self.inner.inv()
    }

    /// The bindings not yet produced, in storage order.
    pub closed spec fn remaining(&self) -> Seq<(K, V)> {
        self.inner.remaining()
    }

    /// Advance to the next live binding and return its key and value.
    pub fn next(&mut self) -> (r: Option<(&'a K, &'a V)>)
        requires
            old(self).inv(),
        ensures
            final(self).inv(),
            match r {
                Some(kv) => old(self).remaining().len() > 0 && (*kv.0, *kv.1) == old(
                    self,
                ).remaining()[0] && final(self).remaining() == old(self).remaining().drop_first(),
                None => old(self).remaining().len() == 0 && final(self).remaining() == old(
                    self,
                ).remaining(),
            },
    {
        self.inner.next()
    }
}

/// A single-pass cursor over the keys of a table, in storage order.
pub struct HashMapKeys<'a, K, V> {
    inner: HashMapIter<'a, K, V>,
}

impl<'a, K: AsBytes, V> HashMapKeys<'a, K, V> {
    /// The cursor stays within the slot array.
    pub closed spec fn inv(&self) -> bool {
        self.inner.inv()
    }

    /// The keys not yet produced, in storage order.
    pub closed spec fn remaining(&self) -> Seq<K> {
        Seq::new(self.inner.remaining().len(), |i: int| self.inner.remaining()[i].0)
    }

    /// Advance to the next live binding and return its key.
    pub fn next(&mut self) -> (r: Option<&'a K>)
        requires
            old(self).inv(),
        ensures
            final(self).inv(),
            match r {
                Some(k) => old(self).remaining().len() > 0 && *k == old(self).remaining()[0]
                    && final(self).remaining() == old(self).remaining().drop_first(),
                None => old(self).remaining().len() == 0 && final(self).remaining() == old(
                    self,
                ).remaining(),
            },
    {
        let r = self.inner.next();
        match r {
            Some((k, _)) => {
                proof {
                    assert(final(self).remaining() =~= old(self).remaining().drop_first());
                }
                Some(k)
            },
            None => {
                proof {
                    assert(final(self).remaining() =~= old(self).remaining());
                }
                None
            },
        }
    }
}

impl<K: AsBytes, V> HashMap<K, V> {
    /// A cursor over the live bindings, in storage order.
    pub fn iter<'a>(&'a self) -> (it: HashMapIterator<'a, K, V>)
        requires
            self.wf(),
        ensures
            it.inv(),
            it.remaining() == self.spec_kvs(),
            it.remaining().len() == self.spec_len(),
            forall|i: int|
                0 <= i < it.remaining().len() ==> self@.dom().contains(
                    (#[trigger] it.remaining()[i]).0.bytes(),
                ) && self@[it.remaining()[i].0.bytes()] == it.remaining()[i].1,
            forall|kb: Seq<u8>|
                self@.dom().contains(kb) ==> exists|i: int|
                    0 <= i < it.remaining().len() && (#[trigger] it.remaining()[i]).0.bytes()
                        == kb,
    {
        proof {
            assert(self.table@.skip(0) =~= self.table@);
            lemma_wf_unique(self.table@, self.log_cap@);
            lemma_kv_seq_model(self.table@);
            lemma_kv_seq_complete(self.table@);
            assert forall|kb: Seq<u8>| self@.dom().contains(kb) implies exists|i: int|
                0 <= i < kv_seq(self.table@).len() && (#[trigger] kv_seq(self.table@)[i]).0.bytes()
                    == kb by {
                let j = key_index(self.table@, kb);
                assert(0 <= j < self.table@.len() && self.table@[j] is Occupied && slot_bytes(
                    self.table@[j],
                ) == kb);
                let i = choose|i: int|
                    0 <= i < kv_seq(self.table@).len() && kv_seq(self.table@)[i] == (
                    self.table@[j]->Occupied_0, self.table@[j]->Occupied_1);
                assert((kv_seq(self.table@)[i]).0.bytes() == kb);
            }
        }
        HashMapIterator { entries: &self.table, pos: 0 }
    }

    /// A cursor over the keys, in storage order.
    pub fn keys<'a>(&'a self) -> (it: HashMapKeys<'a, K, V>)
        requires
            self.wf(),
        ensures
            it.inv(),
            it.remaining().len() == self.spec_len(),
            forall|i: int|
                0 <= i < it.remaining().len() ==> self@.dom().contains(
                    (#[trigger] it.remaining()[i]).bytes(),
                ),
            forall|kb: Seq<u8>|
                self@.dom().contains(kb) ==> exists|i: int|
                    0 <= i < it.remaining().len() && (#[trigger] it.remaining()[i]).bytes() == kb,
    {
        let inner = self.iter();
        let ghost kvs = inner.remaining();
        let r = HashMapKeys { inner: HashMapIter { inner } };
        proof {
            assert(forall|i: int|
                0 <= i < r.remaining().len() ==> #[trigger] r.remaining()[i]
                    == self.spec_kvs()[i].0);
            assert forall|kb: Seq<u8>| self@.dom().contains(kb) implies exists|i: int|
                0 <= i < r.remaining().len() && (#[trigger] r.remaining()[i]).bytes() == kb by {
                let i = choose|i: int| 0 <= i < kvs.len() && (#[trigger] kvs[i]).0.bytes() == kb;
                assert(r.remaining()[i].bytes() == kb);
            }
        }
        r
    }

    /// Whether every key of this table is a key of `other`.
    pub fn keys_subset_of<W>(&self, other: &HashMap<K, W>) -> (r: bool)
        requires
            self.wf(),
            other.wf(),
        ensures
            r == self@.dom().subset_of(other@.dom()),
    {
        let n = self.table.len();
        let mut idx: usize = 0;
        while idx < n
            invariant
                idx <= n,
                n == self.table@.len(),
                self.wf(),
                other.wf(),
                forall|j: int|
                    0 <= j < idx && (#[trigger] self.table@[j]) is Occupied ==> other@.dom()
                        .contains(slot_bytes(self.table@[j])),
            decreases n - idx,
        {
            match &self.table[idx] {
                Entry::Occupied(k, _, _) => {
                    if other.find_equiv(k).is_none() {
                        proof {
                            assert(has_key(self.table@, k.bytes()));
                            assert(self@.dom().contains(k.bytes()));
                        }
                        return false;
                    }
                },
                _ => {},
            }
            idx += 1;
        }
        proof {
            assert forall|kb: Seq<u8>| self@.dom().contains(kb) implies other@.dom().contains(
                kb,
            ) by {
                let j = choose|j: int|
                    0 <= j < self.table@.len() && (#[trigger] self.table@[j]) is Occupied
                        && slot_bytes(self.table@[j]) == kb;
                assert(other@.dom().contains(slot_bytes(self.table@[j])));
            }
        }
        true
    }

    /// Whether this table and `other` have no key in common.
    pub fn keys_disjoint_with<W>(&self, other: &HashMap<K, W>) -> (r: bool)
        requires
            self.wf(),
            other.wf(),
        ensures
            r == self@.dom().disjoint(other@.dom()),
    {
        let n = self.table.len();
        let mut idx: usize = 0;
        while idx < n
            invariant
                idx <= n,
                n == self.table@.len(),
                self.wf(),
                other.wf(),
                forall|j: int|
                    0 <= j < idx && (#[trigger] self.table@[j]) is Occupied ==> !other@.dom()
                        .contains(slot_bytes(self.table@[j])),
            decreases n - idx,
        {
            match &self.table[idx] {
                Entry::Occupied(k, _, _) => {
                    if other.find_equiv(k).is_some() {
                        proof {
                            assert(has_key(self.table@, k.bytes()));
                            assert(self@.dom().contains(k.bytes()));
                            assert(!self@.dom().disjoint(other@.dom()));
                        }
                        return false;
                    }
                },
                _ => {},
            }
            idx += 1;
        }
        proof {
            assert forall|kb: Seq<u8>| self@.dom().contains(kb) implies !other@.dom().contains(
                kb,
            ) by {
                let j = choose|j: int|
                    0 <= j < self.table@.len() && (#[trigger] self.table@[j]) is Occupied
                        && slot_bytes(self.table@[j]) == kb;
                assert(!other@.dom().contains(slot_bytes(self.table@[j])));
            }
        }
        true
    }
}

/// Every binding the cursor will produce is a binding of the model.
proof fn lemma_kv_seq_model<K: AsBytes, V>(s: Seq<Entry<K, V>>)
    requires
        keys_unique(s),
    ensures
        forall|i: int|
            0 <= i < kv_seq(s).len() ==> has_key(s, (#[trigger] kv_seq(s)[i]).0.bytes()) && map_of(
                s,
            )[kv_seq(s)[i].0.bytes()] == kv_seq(s)[i].1,
    decreases s.len(),
{
    if s.len() > 0 {
        let t = s.drop_first();
        assert forall|j1: int, j2: int|
            0 <= j1 < j2 < t.len() && (#[trigger] t[j1]) is Occupied && (#[trigger] t[j2])
                is Occupied implies slot_bytes(t[j1]) != slot_bytes(t[j2]) by {
            assert(t[j1] == s[j1 + 1] && t[j2] == s[j2 + 1]);
        }
        lemma_kv_seq_model(t);
        assert forall|i: int|
            0 <= i < kv_seq(s).len() implies has_key(s, (#[trigger] kv_seq(s)[i]).0.bytes())
            && map_of(s)[kv_seq(s)[i].0.bytes()] == kv_seq(s)[i].1 by {
            if s[0] is Occupied && i == 0 {
                lemma_key_index_is(s, 0);
            } else {
                let it = if s[0] is Occupied {
                    i - 1
                } else {
                    i
                };
                assert(kv_seq(s)[i] == kv_seq(t)[it]);
                assert(has_key(t, kv_seq(t)[it].0.bytes()));
                let jt = choose|j: int|
                    0 <= j < t.len() && (#[trigger] t[j]) is Occupied && slot_bytes(t[j])
                        == kv_seq(t)[it].0.bytes();
                assert(s[jt + 1] == t[jt]);
                assert(has_key(s, kv_seq(t)[it].0.bytes()));
                lemma_key_index_is(t, jt);
                lemma_key_index_is(s, jt + 1);
            }
        }
    }
}

/// Every occupied slot appears among the bindings the cursor produces.
proof fn lemma_kv_seq_complete<K: AsBytes, V>(s: Seq<Entry<K, V>>)
    ensures
        forall|j: int|
            0 <= j < s.len() && (#[trigger] s[j]) is Occupied ==> exists|i: int|
                0 <= i < kv_seq(s).len() && kv_seq(s)[i] == (s[j]->Occupied_0, s[j]->Occupied_1),
    decreases s.len(),
{
    if s.len() > 0 {
        let t = s.drop_first();
        lemma_kv_seq_complete(t);
        assert forall|j: int| 0 <= j < s.len() && (#[trigger] s[j]) is Occupied implies exists|
            i: int,
        |
            0 <= i < kv_seq(s).len() && kv_seq(s)[i] == (s[j]->Occupied_0, s[j]->Occupied_1) by {
            if j == 0 {
                assert(kv_seq(s)[0] == (s[0]->Occupied_0, s[0]->Occupied_1));
            } else {
                assert(t[j - 1] == s[j]);
                let it = choose|i: int|
                    0 <= i < kv_seq(t).len() && kv_seq(t)[i] == (t[j - 1]->Occupied_0, t[j
                        - 1]->Occupied_1);
                if s[0] is Occupied {
                    assert(kv_seq(s)[it + 1] == kv_seq(t)[it]);
                } else {
                    assert(kv_seq(s)[it] == kv_seq(t)[it]);
                }
            }
        }
    }
}

/// A prefix of the slot array never holds more bindings than the whole.
proof fn lemma_count_take_le<K: AsBytes, V>(s: Seq<Entry<K, V>>, m: int)
    requires
        0 <= m <= s.len(),
    ensures
        count_full(s.take(m)) <= count_full(s),
{
    assert(s =~= s.take(m) + s.skip(m));
    lemma_kv_app(s.take(m), s.skip(m));
}

/// Extending a prefix by one slot adds that slot's binding, if any, to the
/// prefix's model.
proof fn lemma_take_step<K: AsBytes, V>(s: Seq<Entry<K, V>>, i: int)
    requires
        0 <= i < s.len(),
        keys_unique(s),
    ensures
        s[i] is Occupied ==> !has_key(s.take(i), slot_bytes(s[i])) && map_of(s.take(i + 1))
            == map_of(s.take(i)).insert(slot_bytes(s[i]), s[i]->Occupied_1) && count_full(
            s.take(i + 1),
        ) == count_full(s.take(i)) + 1,
        !(s[i] is Occupied) ==> map_of(s.take(i + 1)) == map_of(s.take(i)) && count_full(
            s.take(i + 1),
        ) == count_full(s.take(i)),
{
    let a = s.take(i);
    let b = s.take(i + 1);
    assert(b =~= a + seq![s[i]]);
    lemma_kv_app(a, seq![s[i]]);
    lemma_kv_single(s[i]);
    assert forall|j1: int, j2: int|
        0 <= j1 < j2 < b.len() && (#[trigger] b[j1]) is Occupied && (#[trigger] b[j2]) is Occupied
        implies slot_bytes(b[j1]) != slot_bytes(b[j2]) by {
        assert(b[j1] == s[j1] && b[j2] == s[j2]);
    }
    assert(keys_unique(b));
    assert forall|j1: int, j2: int|
        0 <= j1 < j2 < a.len() && (#[trigger] a[j1]) is Occupied && (#[trigger] a[j2]) is Occupied
        implies slot_bytes(a[j1]) != slot_bytes(a[j2]) by {
        assert(a[j1] == s[j1] && a[j2] == s[j2]);
    }
    assert(keys_unique(a));
    if s[i] is Occupied {
        let kb = slot_bytes(s[i]);
        if has_key(a, kb) {
            let j = choose|j: int|
                0 <= j < a.len() && (#[trigger] a[j]) is Occupied && slot_bytes(a[j]) == kb;
            assert(s[j] is Occupied && slot_bytes(s[j]) == slot_bytes(s[i]) && j < i);
            assert(false);
        }
        assert(b[i] == s[i]);
        assert(has_key(b, kb));
        assert forall|kb2: Seq<u8>| #[trigger] has_key(b, kb2) implies kb2 == kb || has_key(
            a,
            kb2,
        ) by {
            if kb2 != kb {
                let j = choose|j: int|
                    0 <= j < b.len() && (#[trigger] b[j]) is Occupied && slot_bytes(b[j]) == kb2;
                assert(j != i);
                assert(a[j] is Occupied && slot_bytes(a[j]) == kb2);
            }
        }
        assert forall|kb2: Seq<u8>| #[trigger] has_key(a, kb2) implies has_key(b, kb2) by {
            let j = choose|j: int|
                0 <= j < a.len() && (#[trigger] a[j]) is Occupied && slot_bytes(a[j]) == kb2;
            assert(b[j] is Occupied && slot_bytes(b[j]) == kb2);
        }
        assert forall|kb2: Seq<u8>| #[trigger] map_of(b).dom().contains(kb2) implies map_of(b)[kb2]
            == map_of(a).insert(kb, s[i]->Occupied_1)[kb2] by {
            if kb2 == kb {
                lemma_key_index_is(b, i);
            } else {
                let j = choose|j: int|
                    0 <= j < a.len() && (#[trigger] a[j]) is Occupied && slot_bytes(a[j]) == kb2;
                lemma_key_index_is(a, j);
                assert(b[j] == a[j]);
                lemma_key_index_is(b, j);
            }
        }
        assert(map_of(b) =~= map_of(a).insert(kb, s[i]->Occupied_1));
    } else {
        assert forall|kb2: Seq<u8>| #[trigger] has_key(b, kb2) == has_key(a, kb2) by {
            if has_key(b, kb2) {
                let j = choose|j: int|
                    0 <= j < b.len() && (#[trigger] b[j]) is Occupied && slot_bytes(b[j]) == kb2;
                assert(j != i);
                assert(a[j] is Occupied && slot_bytes(a[j]) == kb2);
            }
            if has_key(a, kb2) {
                let j = choose|j: int|
                    0 <= j < a.len() && (#[trigger] a[j]) is Occupied && slot_bytes(a[j]) == kb2;
                assert(b[j] is Occupied && slot_bytes(b[j]) == kb2);
            }
        }
        assert forall|kb2: Seq<u8>| #[trigger] map_of(b).dom().contains(kb2) implies map_of(b)[kb2]
            == map_of(a)[kb2] by {
            let j = choose|j: int|
                0 <= j < a.len() && (#[trigger] a[j]) is Occupied && slot_bytes(a[j]) == kb2;
            lemma_key_index_is(a, j);
            assert(b[j] == a[j]);
            lemma_key_index_is(b, j);
        }
        assert(map_of(b) =~= map_of(a));
    }
}

/// An array of empty slots has no contents and satisfies the invariant.
proof fn lemma_all_empty<K: AsBytes, V>(s: Seq<Entry<K, V>>)
    requires
        forall|j: int| 0 <= j < s.len() ==> (#[trigger] s[j]) is Empty,
    ensures
        kv_seq(s).len() == 0,
        count_ghost(s) == 0,
        forall|lg: nat| table_wf(s, lg),
        forall|kb: Seq<u8>| !has_key(s, kb),
    decreases s.len(),
{
    if s.len() > 0 {
        lemma_all_empty(s.drop_first());
    }
}

} // verus!
