//! The anagram dictionary: sorted-letter keys mapping to the words made of
//! those letters, and the search that collects every word reachable from a
//! set of letters.

use vstd::prelude::*;
use vstd::string::StringSliceAdditionalSpecFns;
use vstd::utf8::encode_utf8;

use crate::combinations::{combinations_of, each_combination};
use crate::keys::{bytes_lt, lemma_lex_irreflexive, lemma_lex_transitive, lex_lt, AsBytes};
use crate::map::HashMap;
use crate::set::HashSet;
use crate::words::is_space_byte;

verus! {

/// Non-decreasing byte order.
pub open spec fn sorted_bytes(s: Seq<u8>) -> bool {
    forall|i: int, j: int| 0 <= i <= j < s.len() ==> s[i] <= s[j]
}

/// Insert a byte into a sorted byte string, keeping it sorted.
pub open spec fn insert_sorted(x: u8, s: Seq<u8>) -> Seq<u8>
    decreases s.len(),
{
    if s.len() == 0 {
        seq![x]
    } else if x <= s[0] {
        seq![x] + s
    } else {
        seq![s[0]] + insert_sorted(x, s.drop_first())
    }
}

/// The bytes of a string in non-decreasing order: the canonical key a word
/// shares with its anagrams.
pub open spec fn sort_bytes_spec(s: Seq<u8>) -> Seq<u8>
    decreases s.len(),
{
    if s.len() == 0 {
        Seq::empty()
    } else {
        insert_sorted(s[0], sort_bytes_spec(s.drop_first()))
    }
}

/// Inserting into a sorted string keeps it sorted and adds one copy of the
/// byte.
proof fn lemma_insert_sorted(x: u8, s: Seq<u8>)
    requires
        sorted_bytes(s),
    ensures
        sorted_bytes(insert_sorted(x, s)),
        insert_sorted(x, s).to_multiset() == s.to_multiset().insert(x),
        insert_sorted(x, s).len() == s.len() + 1,
    decreases s.len(),
{
    broadcast use vstd::seq_lib::group_to_multiset_ensures;

    if s.len() == 0 {
        assert(seq![x] =~= Seq::<u8>::empty().push(x));
        assert(insert_sorted(x, s).to_multiset() =~= s.to_multiset().insert(x));
    } else if x <= s[0] {
        let r = seq![x] + s;
        assert forall|i: int, j: int| 0 <= i <= j < r.len() implies r[i] <= r[j] by {
            if i == 0 && j > 0 {
                assert(r[j] == s[j - 1]);
                assert(s[0] <= s[j - 1]);
            }
        }
        assert(r =~= s.insert(0, x));
        assert(s.insert(0, x).to_multiset() == s.to_multiset().insert(x)) by {
            lemma_seq_insert_multiset(s, 0, x);
        }
    } else {
        let t = s.drop_first();
        assert forall|i: int, j: int| 0 <= i <= j < t.len() implies t[i] <= t[j] by {
            assert(s[i + 1] <= s[j + 1]);
        }
        lemma_insert_sorted(x, t);
        let it = insert_sorted(x, t);
        let r = seq![s[0]] + it;
        // every element of the tail-insert is at least s[0]
        assert forall|i: int, j: int| 0 <= i <= j < r.len() implies r[i] <= r[j] by {
            if i == 0 && j > 0 {
                assert(it.to_multiset().contains(it[j - 1]));
                if it[j - 1] != x {
                    assert(t.to_multiset().contains(it[j - 1]));
                    let w = choose|w: int| 0 <= w < t.len() && t[w] == it[j - 1];
                    assert(s[0] <= s[w + 1]);
                }
            } else if i > 0 {
                assert(it[i - 1] <= it[j - 1]);
            }
        }
        assert(r.to_multiset() =~= s.to_multiset().insert(x)) by {
            assert(r =~= it.insert(0, s[0]));
            lemma_seq_insert_multiset(it, 0, s[0]);
            assert(s =~= t.insert(0, s[0]));
            lemma_seq_insert_multiset(t, 0, s[0]);
        }
    }
}

/// Inserting an element into a sequence adds it to the multiset.
proof fn lemma_seq_insert_multiset<A>(s: Seq<A>, i: int, x: A)
    requires
        0 <= i <= s.len(),
    ensures
        s.insert(i, x).to_multiset() == s.to_multiset().insert(x),
    decreases s.len(),
{
    broadcast use vstd::seq_lib::group_to_multiset_ensures;

    let r: Seq<A> = s.insert(i, x);
    assert(r.remove(i) =~= s);
    assert(r.remove(i).to_multiset() =~= r.to_multiset().remove(r[i]));
    assert(r[i] == x);
    assert(r.to_multiset().contains(x));
    assert(r.to_multiset() =~= r.to_multiset().remove(x).insert(x));
    assert(r.to_multiset() =~= s.to_multiset().insert(x));
}

/// The canonical sorted form is sorted and holds the same bytes.
pub proof fn lemma_sort_bytes_spec(s: Seq<u8>)
    ensures
        sorted_bytes(sort_bytes_spec(s)),
        sort_bytes_spec(s).to_multiset() == s.to_multiset(),
        sort_bytes_spec(s).len() == s.len(),
    decreases s.len(),
{
    broadcast use vstd::seq_lib::group_to_multiset_ensures;

    if s.len() == 0 {
    } else {
        lemma_sort_bytes_spec(s.drop_first());
        lemma_insert_sorted(s[0], sort_bytes_spec(s.drop_first()));
        assert(s =~= s.drop_first().insert(0, s[0]));
        lemma_seq_insert_multiset(s.drop_first(), 0, s[0]);
    }
}

/// Two sorted byte strings with the same contents are the same string.
proof fn lemma_sorted_unique(a: Seq<u8>, b: Seq<u8>)
    requires
        sorted_bytes(a),
        sorted_bytes(b),
        a.to_multiset() == b.to_multiset(),
    ensures
        a == b,
    decreases a.len(),
{
    broadcast use vstd::seq_lib::group_to_multiset_ensures;

    a.to_multiset_ensures();
    b.to_multiset_ensures();
    if a.len() == 0 {
        assert(b.to_multiset().len() == 0);
        assert(a =~= b);
    } else {
        assert(b.to_multiset().len() == a.to_multiset().len());
        assert(b.len() == a.len());
        // the heads are both the least byte present
        assert(a.to_multiset().contains(b[0]));
        let ia = choose|i: int| 0 <= i < a.len() && a[i] == b[0];
        assert(a[0] <= a[ia]);
        assert(b.to_multiset().contains(a[0]));
        let ib = choose|i: int| 0 <= i < b.len() && b[i] == a[0];
        assert(b[0] <= b[ib]);
        assert(a[0] == b[0]);
        let ta = a.drop_first();
        let tb = b.drop_first();
        assert(ta =~= a.remove(0));
        assert(tb =~= b.remove(0));
        assert(ta.to_multiset() =~= a.to_multiset().remove(a[0]));
        assert(tb.to_multiset() =~= b.to_multiset().remove(b[0]));
        assert forall|i: int, j: int| 0 <= i <= j < ta.len() implies ta[i] <= ta[j] by {
            assert(a[i + 1] <= a[j + 1]);
        }
        assert forall|i: int, j: int| 0 <= i <= j < tb.len() implies tb[i] <= tb[j] by {
            assert(b[i + 1] <= b[j + 1]);
        }
        lemma_sorted_unique(ta, tb);
        assert forall|k: int| 0 <= k < a.len() implies a[k] == b[k] by {
            if k > 0 {
                assert(ta[k - 1] == tb[k - 1]);
            }
        }
        assert(a =~= b);
    }
}

/// Sort a byte vector in non-decreasing order.
fn sort_bytes(v: &Vec<u8>) -> (out: Vec<u8>)
    ensures
        out@ == sort_bytes_spec(v@),
{
    broadcast use vstd::seq_lib::group_to_multiset_ensures;

    let mut out: Vec<u8> = Vec::new();
    let n = v.len();
    let mut idx: usize = 0;
    proof {
        assert(v@.take(0) =~= Seq::<u8>::empty());
    }
    while idx < n
        invariant
            idx <= n,
            n == v@.len(),
            sorted_bytes(out@),
            out@.to_multiset() == v@.take(idx as int).to_multiset(),
            out@.len() == idx,
        decreases n - idx,
    {
        broadcast use vstd::seq_lib::group_to_multiset_ensures;

        let x = v[idx];
        let mut p: usize = 0;
        loop
            invariant
                p <= out@.len(),
                sorted_bytes(out@),
                forall|q: int| 0 <= q < p ==> out@[q] <= x,
            ensures
                p <= out@.len(),
                forall|q: int| 0 <= q < p ==> out@[q] <= x,
                p < out@.len() ==> out@[p as int] > x,
            decreases out@.len() - p,
        {
            if p >= out.len() {
                break;
            }
            if out[p] > x {
                break;
            }
            p += 1;
        }
        let ghost out_old = out@;
        out.insert(p, x);
        proof {
            assert forall|i: int, j: int| 0 <= i <= j < out@.len() implies out@[i] <= out@[j] by {
                if j < p {
                    assert(out@[i] == out_old[i] && out@[j] == out_old[j]);
                } else if i > p {
                    assert(out@[i] == out_old[i - 1] && out@[j] == out_old[j - 1]);
                } else if i < p && j == p {
                    assert(out@[i] == out_old[i]);
                } else if i == p && j > p {
                    assert(out@[j] == out_old[j - 1]);
                    if p < out_old.len() {
                        assert(out_old[p as int] <= out_old[j - 1]);
                    }
                }
            }
            lemma_seq_insert_multiset(out_old, p as int, x);
            assert(v@.take(idx as int + 1) =~= v@.take(idx as int).push(v@[idx as int]));
        }
        idx += 1;
    }
    proof {
        assert(v@.take(n as int) =~= v@);
        lemma_sort_bytes_spec(v@);
        lemma_sorted_unique(out@, sort_bytes_spec(v@));
    }
    out
}

/// How many ASCII whitespace bytes the string starts with.
pub open spec fn lead_spaces(bytes: Seq<u8>) -> nat
    decreases bytes.len(),
{
    if bytes.len() == 0 || !crate::words::is_space(bytes[0]) {
        0
    } else {
        1 + lead_spaces(bytes.drop_first())
    }
}

/// How many ASCII whitespace bytes the string ends with.
pub open spec fn tail_spaces(bytes: Seq<u8>) -> nat
    decreases bytes.len(),
{
    if bytes.len() == 0 || !crate::words::is_space(bytes.last()) {
        0
    } else {
        1 + tail_spaces(bytes.drop_last())
    }
}

/// The string with its leading and trailing ASCII whitespace removed.
pub open spec fn trimmed(bytes: Seq<u8>) -> Seq<u8> {
    if lead_spaces(bytes) + tail_spaces(bytes) <= bytes.len() {
        bytes.subrange(lead_spaces(bytes) as int, bytes.len() - tail_spaces(bytes))
    } else {
        Seq::empty()
    }
}

/// A run of leading spaces ending at the first non-space is the whole
/// leading whitespace.
proof fn lemma_lead_spaces_run(bytes: Seq<u8>, i: int)
    requires
        0 <= i <= bytes.len(),
        forall|p: int| 0 <= p < i ==> crate::words::is_space(#[trigger] bytes[p]),
        i < bytes.len() ==> !crate::words::is_space(bytes[i]),
    ensures
        lead_spaces(bytes) == i,
    decreases i,
{
    if i == 0 {
    } else {
        assert(bytes.drop_first() =~= bytes.skip(1));
        assert forall|p: int| 0 <= p < i - 1 implies crate::words::is_space(
            #[trigger] bytes.drop_first()[p],
        ) by {
            assert(bytes.drop_first()[p] == bytes[p + 1]);
        }
        if i - 1 < bytes.drop_first().len() {
            assert(bytes.drop_first()[i - 1] == bytes[i]);
        }
        lemma_lead_spaces_run(bytes.drop_first(), i - 1);
    }
}

/// A run of trailing spaces starting after the last non-space is the whole
/// trailing whitespace.
proof fn lemma_tail_spaces_run(bytes: Seq<u8>, j: int)
    requires
        0 <= j <= bytes.len(),
        forall|p: int| j <= p < bytes.len() ==> crate::words::is_space(#[trigger] bytes[p]),
        j > 0 ==> !crate::words::is_space(bytes[j - 1]),
    ensures
        tail_spaces(bytes) == bytes.len() - j,
    decreases bytes.len() - j,
{
    if j == bytes.len() {
        if bytes.len() > 0 {
            assert(!crate::words::is_space(bytes.last()));
        }
    } else {
        assert(crate::words::is_space(bytes.last()));
        assert(bytes.drop_last() =~= bytes.take(bytes.len() - 1));
        assert forall|p: int| j <= p < bytes.drop_last().len() implies crate::words::is_space(
            #[trigger] bytes.drop_last()[p],
        ) by {
            assert(bytes.drop_last()[p] == bytes[p]);
        }
        if j > 0 {
            assert(bytes.drop_last()[j - 1] == bytes[j - 1]);
        }
        lemma_tail_spaces_run(bytes.drop_last(), j);
    }
}

/// Strip leading and trailing ASCII whitespace.
pub fn trim_ascii(s: &str) -> (t: String)
    ensures
        encode_utf8(t@) == trimmed(s.spec_bytes()),
{
    broadcast use vstd::utf8::encode_utf8_valid_utf8;

    let ghost bytes = s.spec_bytes();
    let b = s.as_bytes();
    let n = b.len();
    let mut i: usize = 0;
    while i < n && is_space_byte(b[i])
        invariant
            i <= n,
            n == bytes.len(),
            b@ == bytes,
            forall|p: int| 0 <= p < i ==> crate::words::is_space(#[trigger] bytes[p]),
        decreases n - i,
    {
        i += 1;
    }
    proof {
        lemma_lead_spaces_run(bytes, i as int);
    }
    if i == n {
        let t = String::new();
        proof {
            if n > 0 {
                lemma_tail_spaces_run(bytes, 0);
                assert(lead_spaces(bytes) + tail_spaces(bytes) > bytes.len());
            } else {
                assert(trimmed(bytes) =~= Seq::<u8>::empty());
            }
            assert(encode_utf8(t@) =~= Seq::<u8>::empty());
        }
        return t;
    }
    let mut j: usize = n;
    while j > i && is_space_byte(b[j - 1])
        invariant
            i <= j <= n,
            n == bytes.len(),
            b@ == bytes,
            i < n,
            !crate::words::is_space(bytes[i as int]),
            forall|p: int| j <= p < n ==> crate::words::is_space(#[trigger] bytes[p]),
        decreases j,
    {
        j -= 1;
    }
    proof {
        assert(j > i);
        lemma_tail_spaces_run(bytes, j as int);
        assert(lead_spaces(bytes) + tail_spaces(bytes) <= bytes.len());
        crate::words::lemma_boundary_at(bytes, j as int);
    }
    let (head, _) = s.split_at(j);
    proof {
        vstd::utf8::valid_utf8_split(bytes, j as int);
        assert(head.spec_bytes() =~= bytes.subrange(0, j as int));
        if i > 0 {
            assert(head.spec_bytes()[i - 1] == bytes[i as int - 1]);
            crate::words::lemma_boundary_after_ascii(head.spec_bytes(), i as int - 1);
        } else {
            crate::words::lemma_boundary_at(head.spec_bytes(), 0);
        }
    }
    let (_, core) = head.split_at(i);
    let t = core.to_owned();
    proof {
        assert(encode_utf8(t@) == core.spec_bytes());
        assert(core.spec_bytes() =~= bytes.subrange(i as int, j as int));
        assert(trimmed(bytes) =~= bytes.subrange(i as int, j as int));
    }
    t
}

/// The letters of a word, as bytes in non-decreasing order: the canonical
/// anagram key.
pub fn get_letters(s: &str) -> (letters: Vec<u8>)
    ensures
        letters@ == sort_bytes_spec(s.spec_bytes()),
{
    let b = vstd::slice::slice_to_vec(s.as_bytes());
    sort_bytes(&b)
}

/// Whether a byte is a lower-case ASCII letter.
pub open spec fn is_lower_alpha(b: u8) -> bool {
    0x61 <= b && b <= 0x7a
}

/// Whether a dictionary source line is kept: after trimming, its length is
/// at least 2 and under 19, and every byte is a lower-case ASCII letter.
pub open spec fn line_accepted(bytes: Seq<u8>) -> bool {
    let t = trimmed(bytes);
    2 <= t.len() && t.len() < 19 && (forall|i: int|
        0 <= i < t.len() ==> is_lower_alpha(#[trigger] t[i]))
}

/// The dictionary built from source lines, oldest first: each accepted
/// line, trimmed, is filed under its sorted letters, after the words filed
/// there before it.
pub open spec fn dict_of(lines: Seq<Seq<u8>>) -> Map<Seq<u8>, Seq<Seq<u8>>>
    decreases lines.len(),
{
    if lines.len() == 0 {
        Map::empty()
    } else {
        let m = dict_of(lines.drop_last());
        if line_accepted(lines.last()) {
            let t = trimmed(lines.last());
            let key = sort_bytes_spec(t);
            let prev = if m.dom().contains(key) {
                m[key]
            } else {
                Seq::empty()
            };
            m.insert(key, prev.push(t))
        } else {
            m
        }
    }
}

/// The byte view of a table of word lists.
pub open spec fn dict_view(m: Map<Seq<u8>, Vec<String>>) -> Map<Seq<u8>, Seq<Seq<u8>>> {
    m.map_values(|ws: Vec<String>| ws@.map_values(|w: String| encode_utf8(w@)))
}

/// Whether a trimmed word passes the dictionary filter: length at least 2
/// and under 19, all bytes lower-case ASCII letters.
fn check_word(t: &String) -> (r: bool)
    ensures
        r == (2 <= encode_utf8(t@).len() && encode_utf8(t@).len() < 19 && (forall|i: int|
            0 <= i < encode_utf8(t@).len() ==> is_lower_alpha(#[trigger] encode_utf8(t@)[i]))),
{
    let ghost tb = encode_utf8(t@);
    let b = t.as_str().as_bytes();
    let n = b.len();
    if n < 2 || n >= 19 {
        return false;
    }
    let mut q: usize = 0;
    while q < n
        invariant
            q <= n,
            n == tb.len(),
            b@ == tb,
            tb == encode_utf8(t@),
            2 <= n < 19,
            forall|i: int| 0 <= i < q ==> is_lower_alpha(#[trigger] tb[i]),
        decreases n - q,
    {
        let c = b[q];
        if c < 0x61 || c > 0x7a {
            proof {
                assert(!is_lower_alpha(encode_utf8(t@)[q as int]));
            }
            return false;
        }
        q += 1;
    }
    true
}

/// Build the anagram dictionary from the lines of a word list: each
/// accepted line, trimmed, is filed under its letters in sorted order.
/// The bound on the number of lines is a machine limit.
pub fn read_dict(lines: &Vec<String>) -> (dict: HashMap<Vec<u8>, Vec<String>>)
    requires
        lines@.len() <= usize::MAX as nat / 64,
    ensures
        dict.wf(),
        dict_view(dict@) == dict_of(lines@.map_values(|l: String| encode_utf8(l@))),
        dict.spec_len() <= lines@.len(),
{
    let ghost ml = lines@.map_values(|l: String| encode_utf8(l@));
    let mut dict: HashMap<Vec<u8>, Vec<String>> = HashMap::new();
    proof {
        assert(ml.take(0) =~= Seq::<Seq<u8>>::empty());
        assert(dict_view(dict@) =~= Map::<Seq<u8>, Seq<Seq<u8>>>::empty());
    }
    let n = lines.len();
    let mut idx: usize = 0;
    while idx < n
        invariant
            idx <= n,
            n == lines@.len(),
            n <= usize::MAX as nat / 64,
            ml == lines@.map_values(|l: String| encode_utf8(l@)),
            dict.wf(),
            dict.spec_len() <= idx,
            dict_view(dict@) == dict_of(ml.take(idx as int)),
        decreases n - idx,
    {
        let ghost dv0 = dict_view(dict@);
        let ghost lb = ml[idx as int];
        let t = trim_ascii(lines[idx].as_str());
        let ghost tb = trimmed(lb);
        proof {
            assert(lb == encode_utf8(lines@[idx as int]@));
            assert(encode_utf8(t@) == tb);
        }
        let ok = check_word(&t);
        proof {
            assert(ok == line_accepted(lb));
            assert(ml.take(idx as int + 1).drop_last() =~= ml.take(idx as int));
            assert(ml.take(idx as int + 1).last() == lb);
        }
        if ok {
            let key = sort_bytes(&t.as_byte_vec());
            proof {
                assert(key@ == sort_bytes_spec(tb));
            }
            let ghost m_before = dict@;
            let prev = dict.pop(&key);
            let ghost m_popped = dict@;
            let mut list: Vec<String> = match prev {
                Some(l) => l,
                None => Vec::new(),
            };
            let ghost prev_words = list@;
            list.push(t);
            let ghost new_words = list@;
            let _ = dict.insert(key, list);
            proof {
                let kb = key@;
                let enc = |w: String| encode_utf8(w@);
                let spec_prev = if dv0.dom().contains(kb) {
                    dv0[kb]
                } else {
                    Seq::<Seq<u8>>::empty()
                };
                assert(key.bytes() == kb);
                assert(m_popped == m_before.remove(kb));
                assert(dict@ == m_popped.insert(kb, list));
                assert(prev_words.map_values(enc) =~= spec_prev) by {
                    if dv0.dom().contains(kb) {
                        assert(m_before.dom().contains(kb));
                        assert(dv0[kb] == m_before[kb]@.map_values(enc));
                        assert(prev_words == m_before[kb]@);
                    }
                }
                assert(new_words =~= prev_words.push(t));
                assert(new_words.map_values(enc) =~= spec_prev.push(tb));
                assert(dict_view(dict@) =~= dv0.insert(kb, spec_prev.push(tb))) by {
                    assert forall|k2: Seq<u8>| #[trigger] dict@.dom().contains(k2) == (
                    m_before.dom().contains(k2) || k2 == kb) by {}
                    assert forall|k2: Seq<u8>| dict@.dom().contains(k2) implies dict_view(
                        dict@,
                    )[k2] == dv0.insert(kb, spec_prev.push(tb))[k2] by {
                        if k2 == kb {
                            assert(dict@[kb] == list);
                            assert(dict_view(dict@)[kb] == new_words.map_values(enc));
                        } else {
                            assert(dict@[k2] == m_before[k2]);
                            assert(dict_view(dict@)[k2] == m_before[k2]@.map_values(enc));
                            assert(dv0[k2] == m_before[k2]@.map_values(enc));
                        }
                    }
                }
                assert(dict_of(ml.take(idx as int + 1)) == dv0.insert(kb, spec_prev.push(tb)));
            }
        } else {
            proof {
                assert(dict_of(ml.take(idx as int + 1)) == dv0);
            }
        }
        idx += 1;
    }
    proof {
        assert(ml.take(n as int) =~= ml);
    }
    dict
}

/// Whether `wb` is the byte form of some word the search over `letters`
/// must produce, considering only combination sizes below `bound`.
pub open spec fn found_below(
    letters: Seq<u8>,
    dict: Map<Seq<u8>, Vec<String>>,
    wb: Seq<u8>,
    bound: int,
) -> bool {
    exists|i: nat, c: int, w: int|
        #![trigger combinations_of(letters, i)[c], dict[combinations_of(letters, i)[c]]@[w]]
        2 <= i < bound && i <= letters.len() && 0 <= c < combinations_of(letters, i).len()
            && dict.dom().contains(combinations_of(letters, i)[c]) && 0 <= w
            < dict[combinations_of(letters, i)[c]]@.len() && encode_utf8(
            dict[combinations_of(letters, i)[c]]@[w]@,
        ) == wb
}

/// Whether `wb` is the byte form of some word the search over `letters`
/// must produce: a word filed under some combination of at least two of
/// the letters.
pub open spec fn found_in(letters: Seq<u8>, dict: Map<Seq<u8>, Vec<String>>, wb: Seq<u8>) -> bool {
    found_below(letters, dict, wb, letters.len() as int + 1)
}

/// Add every word of a list to the result set, while the set can still
/// grow within the machine limit.
fn add_words(found: &mut HashSet<String>, words: &Vec<String>)
    requires
        old(found).wf(),
    ensures
        final(found).wf(),
        final(found).spec_len() >= old(found).spec_len(),
        forall|wb: Seq<u8>| old(found)@.contains(wb) ==> final(found)@.contains(wb),
        forall|wb: Seq<u8>|
            final(found)@.contains(wb) ==> old(found)@.contains(wb) || (exists|k: int|
                0 <= k < words@.len() && encode_utf8((#[trigger] words@[k])@) == wb),
        final(found).spec_len() < usize::MAX as nat / 64 ==> forall|k: int|
            0 <= k < words@.len() ==> final(found)@.contains(encode_utf8(
                (#[trigger] words@[k])@,
            )),
{
    let n = words.len();
    let mut k: usize = 0;
    while k < n
        invariant
            k <= n,
            n == words@.len(),
            found.wf(),
            found.spec_len() >= old(found).spec_len(),
            forall|wb: Seq<u8>| old(found)@.contains(wb) ==> found@.contains(wb),
            forall|wb: Seq<u8>|
                found@.contains(wb) ==> old(found)@.contains(wb) || (exists|kk: int|
                    0 <= kk < words@.len() && encode_utf8((#[trigger] words@[kk])@) == wb),
            found.spec_len() >= usize::MAX as nat / 64 || (forall|kk: int|
                0 <= kk < k ==> found@.contains(encode_utf8((#[trigger] words@[kk])@))),
        decreases n - k,
    {
        if found.len() < usize::MAX / 64 {
            let w = words[k].clone();
            proof {
                assert(w@ == words@[k as int]@);
            }
            found.insert(w);
        }
        k += 1;
    }
}

/// Look every combination of a fixed size up and collect the words found.
fn search_size(
    found: &mut HashSet<String>,
    combos: &Vec<Vec<u8>>,
    dictionary: &HashMap<Vec<u8>, Vec<String>>,
)
    requires
        old(found).wf(),
        dictionary.wf(),
    ensures
        final(found).wf(),
        final(found).spec_len() >= old(found).spec_len(),
        forall|wb: Seq<u8>| old(found)@.contains(wb) ==> final(found)@.contains(wb),
        forall|wb: Seq<u8>|
            final(found)@.contains(wb) ==> old(found)@.contains(wb) || (exists|c: int, w: int|
                #![trigger dictionary@[combos@[c]@]@[w]]
                0 <= c < combos@.len() && dictionary@.dom().contains(combos@[c]@) && 0 <= w
                    < dictionary@[combos@[c]@]@.len() && encode_utf8(
                    dictionary@[combos@[c]@]@[w]@,
                ) == wb),
        final(found).spec_len() < usize::MAX as nat / 64 ==> forall|c: int, w: int|
            #![trigger dictionary@[combos@[c]@]@[w]]
            0 <= c < combos@.len() && dictionary@.dom().contains(combos@[c]@) && 0 <= w
                < dictionary@[combos@[c]@]@.len() ==> final(found)@.contains(encode_utf8(
                dictionary@[combos@[c]@]@[w]@,
            )),
{
    let n = combos.len();
    let mut c: usize = 0;
    while c < n
        invariant
            c <= n,
            n == combos@.len(),
            found.wf(),
            dictionary.wf(),
            found.spec_len() >= old(found).spec_len(),
            forall|wb: Seq<u8>| old(found)@.contains(wb) ==> found@.contains(wb),
            forall|wb: Seq<u8>|
                found@.contains(wb) ==> old(found)@.contains(wb) || (exists|cc: int, w: int|
                    #![trigger dictionary@[combos@[cc]@]@[w]]
                    0 <= cc < combos@.len() && dictionary@.dom().contains(combos@[cc]@) && 0 <= w
                        < dictionary@[combos@[cc]@]@.len() && encode_utf8(
                        dictionary@[combos@[cc]@]@[w]@,
                    ) == wb),
            found.spec_len() >= usize::MAX as nat / 64 || (forall|cc: int, w: int|
                #![trigger dictionary@[combos@[cc]@]@[w]]
                0 <= cc < c && dictionary@.dom().contains(combos@[cc]@) && 0 <= w
                    < dictionary@[combos@[cc]@]@.len() ==> found@.contains(encode_utf8(
                    dictionary@[combos@[cc]@]@[w]@,
                ))),
        decreases n - c,
    {
        let ghost len_before = found.spec_len();
        match dictionary.find_equiv(&combos[c]) {
            Some(words) => {
                add_words(found, words);
            },
            None => {},
        }
        c += 1;
    }
}

/// Collect every dictionary word that can be made from at least two of the
/// given letters: the words filed under each combination of the letters.
/// The result is exact as long as the distinct-word count stays within the
/// machine limit on the set.
pub fn search(letters: &[u8], dictionary: &HashMap<Vec<u8>, Vec<String>>) -> (found: HashSet<
    String,
>)
    requires
        dictionary.wf(),
        letters@.len() < usize::MAX,
    ensures
        found.wf(),
        forall|wb: Seq<u8>| found@.contains(wb) ==> found_in(letters@, dictionary@, wb),
        final_complete(found.spec_len()) ==> forall|wb: Seq<u8>|
            found_in(letters@, dictionary@, wb) ==> found@.contains(wb),
{
    let mut found = HashSet::new();
    let n = letters.len();
    if n < 2 {
        return found;
    }
    let mut i: usize = 2;
    while i <= n
        invariant
            2 <= i <= n + 1,
            n == letters@.len(),
            n < usize::MAX,
            dictionary.wf(),
            found.wf(),
            forall|wb: Seq<u8>|
                found@.contains(wb) ==> found_below(letters@, dictionary@, wb, i as int),
            found.spec_len() >= usize::MAX as nat / 64 || (forall|wb: Seq<u8>|
                found_below(letters@, dictionary@, wb, i as int) ==> found@.contains(wb)),
        decreases n + 1 - i,
    {
        let combos = each_combination(letters, i);
        let ghost before = found@;
        let ghost len_before = found.spec_len();
        search_size(&mut found, &combos, dictionary);
        proof {
            assert(combos@.map_values(|cv: Vec<u8>| cv@) == combinations_of(letters@, i as nat));
            assert forall|wb: Seq<u8>| found@.contains(wb) implies found_below(
                letters@,
                dictionary@,
                wb,
                i as int + 1,
            ) by {
                if before.contains(wb) {
                    assert(found_below(letters@, dictionary@, wb, i as int));
                    lemma_found_below_widen(letters@, dictionary@, wb, i as int, i as int + 1);
                } else {
                    let (c, w) = choose|c: int, w: int|
                        #![trigger dictionary@[combos@[c]@]@[w]]
                        0 <= c < combos@.len() && dictionary@.dom().contains(combos@[c]@) && 0 <= w
                            < dictionary@[combos@[c]@]@.len() && encode_utf8(
                            dictionary@[combos@[c]@]@[w]@,
                        ) == wb;
                    assert(combos@[c]@ == combinations_of(letters@, i as nat)[c]);
                    assert(2 <= (i as nat) < i as int + 1 && (i as nat) <= letters@.len() && 0 <= c
                        < combinations_of(letters@, i as nat).len() && dictionary@.dom().contains(
                        combinations_of(letters@, i as nat)[c],
                    ) && 0 <= w < dictionary@[combinations_of(letters@, i as nat)[c]]@.len()
                        && encode_utf8(
                        dictionary@[combinations_of(letters@, i as nat)[c]]@[w]@,
                    ) == wb);
                }
            }
            if found.spec_len() < usize::MAX as nat / 64 {
                assert forall|wb: Seq<u8>|
                    found_below(letters@, dictionary@, wb, i as int + 1) implies found@.contains(
                    wb,
                ) by {
                    let (fi, c, w) = choose|fi: nat, c: int, w: int|
                        #![trigger combinations_of(letters@, fi)[c], dictionary@[combinations_of(letters@, fi)[c]]@[w]]
                        2 <= fi < i as int + 1 && fi <= letters@.len() && 0 <= c
                            < combinations_of(letters@, fi).len() && dictionary@.dom().contains(
                            combinations_of(letters@, fi)[c],
                        ) && 0 <= w < dictionary@[combinations_of(letters@, fi)[c]]@.len()
                            && encode_utf8(
                            dictionary@[combinations_of(letters@, fi)[c]]@[w]@,
                        ) == wb;
                    if fi < i as nat {
                        assert(found_below(letters@, dictionary@, wb, i as int));
                    } else {
                        assert(fi == i as nat);
                        assert(combos@[c]@ == combinations_of(letters@, i as nat)[c]);
                        assert(found@.contains(encode_utf8(dictionary@[combos@[c]@]@[w]@)));
                    }
                }
            }
        }
        i += 1;
    }
    found
}

/// The saturation guard: the search result is complete while the set's
/// size stays below the machine limit.
pub open spec fn final_complete(len: nat) -> bool {
    len < usize::MAX as nat / 64
}

/// A word found among small combination sizes is found among larger ones.
proof fn lemma_found_below_widen(
    letters: Seq<u8>,
    dict: Map<Seq<u8>, Vec<String>>,
    wb: Seq<u8>,
    b1: int,
    b2: int,
)
    requires
        b1 <= b2,
        found_below(letters, dict, wb, b1),
    ensures
        found_below(letters, dict, wb, b2),
{
}

/// The keys of a table, in dictionary order of their byte forms: exactly
/// the table's keys, sorted.
pub fn sorted_keys<V>(dict: &HashMap<Vec<u8>, V>) -> (keys: Vec<Vec<u8>>)
    requires
        dict.wf(),
    ensures
        keys@.len() == dict.spec_len(),
        forall|i: int, j: int| 0 <= i <= j < keys@.len() ==> !lex_lt(keys@[j]@, keys@[i]@),
        forall|i: int| 0 <= i < keys@.len() ==> dict@.dom().contains((#[trigger] keys@[i])@),
        forall|kb: Seq<u8>|
            dict@.dom().contains(kb) ==> exists|i: int|
                0 <= i < keys@.len() && (#[trigger] keys@[i])@ == kb,
{
    broadcast use vstd::seq_lib::group_to_multiset_ensures;

    // collect the keys in storage order
    let mut collected: Vec<Vec<u8>> = Vec::new();
    let mut it = dict.iter();
    let ghost all = it.remaining();
    proof {
        assert(all.skip(0) =~= all);
    }
    loop
        invariant
            it.inv(),
            collected@.len() <= all.len(),
            it.remaining() == all.skip(collected@.len() as int),
            forall|i: int|
                0 <= i < collected@.len() ==> (#[trigger] collected@[i])@ == all[i].0.bytes(),
        ensures
            collected@.len() == all.len(),
            forall|i: int|
                0 <= i < collected@.len() ==> (#[trigger] collected@[i])@ == all[i].0.bytes(),
        decreases all.len() - collected@.len(),
    {
        let ghost c = collected@.len() as int;
        match it.next() {
            Some(kv) => {
                proof {
                    assert(all.skip(c)[0] == all[c]);
                    assert(all.skip(c).drop_first() =~= all.skip(c + 1));
                }
                collected.push(vstd::slice::slice_to_vec(kv.0.as_slice()));
            },
            None => {
                proof {
                    assert(all.skip(c).len() == 0);
                }
                break;
            },
        }
    }
    // insertion sort by dictionary order of the byte forms
    let ghost cviews = Seq::new(collected@.len() as nat, |i: int| collected@[i]@);
    let mut keys: Vec<Vec<u8>> = Vec::new();
    let ghost mut kviews: Seq<Seq<u8>> = Seq::empty();
    let n = collected.len();
    let mut idx: usize = 0;
    proof {
        assert(cviews.take(0) =~= Seq::<Seq<u8>>::empty());
    }
    while idx < n
        invariant
            idx <= n,
            n == collected@.len(),
            cviews == Seq::new(collected@.len() as nat, |i: int| collected@[i]@),
            keys@.len() == idx,
            kviews.len() == idx,
            forall|k: int| 0 <= k < idx ==> kviews[k] == (#[trigger] keys@[k])@,
            forall|i: int, j: int| 0 <= i <= j < keys@.len() ==> !lex_lt(keys@[j]@, keys@[i]@),
            kviews.to_multiset() == cviews.take(idx as int).to_multiset(),
        decreases n - idx,
    {
        broadcast use vstd::seq_lib::group_to_multiset_ensures;

        let x = vstd::slice::slice_to_vec(collected[idx].as_slice());
        let mut p: usize = 0;
        loop
            invariant
                p <= keys@.len(),
                x@ == collected@[idx as int]@,
                idx < n,
                n == collected@.len(),
                forall|i: int, j: int| 0 <= i <= j < keys@.len() ==> !lex_lt(keys@[j]@, keys@[i]@),
                forall|q: int| 0 <= q < p ==> !lex_lt(x@, (#[trigger] keys@[q])@),
            ensures
                p <= keys@.len(),
                forall|q: int| 0 <= q < p ==> !lex_lt(x@, (#[trigger] keys@[q])@),
                p < keys@.len() ==> lex_lt(x@, keys@[p as int]@),
            decreases keys@.len() - p,
        {
            if p >= keys.len() {
                break;
            }
            if bytes_lt(&x, &keys[p]) {
                break;
            }
            p += 1;
        }
        let ghost keys_old = keys@;
        let ghost kviews_old = kviews;
        let ghost gx = x@;
        keys.insert(p, x);
        proof {
            kviews = kviews_old.insert(p as int, gx);
            keys_old.insert_ensures(p as int, keys@[p as int]);
            kviews_old.insert_ensures(p as int, gx);
            assert(keys@[p as int]@ == gx);
            assert(forall|k: int| 0 <= k < p ==> #[trigger] keys@[k] == keys_old[k]);
            assert(forall|k: int| p < k < keys@.len() ==> #[trigger] keys@[k] == keys_old[k - 1]);
            assert forall|i: int, j: int| 0 <= i <= j < keys@.len() implies !lex_lt(
                keys@[j]@,
                keys@[i]@,
            ) by {
                if i == j {
                    lemma_lex_irreflexive(keys@[i]@);
                } else if j < p {
                    assert(keys@[i] == keys_old[i] && keys@[j] == keys_old[j]);
                } else if i > p {
                    assert(keys@[i] == keys_old[i - 1] && keys@[j] == keys_old[j - 1]);
                } else if i < p && j == p {
                    assert(keys@[i] == keys_old[i]);
                } else if i == p && j > p {
                    assert(keys@[j] == keys_old[j - 1]);
                    if p < keys_old.len() {
                        assert(!lex_lt(keys_old[j - 1]@, keys_old[p as int]@));
                        if lex_lt(keys@[j]@, keys@[i]@) {
                            lemma_lex_transitive(keys_old[j - 1]@, keys@[i]@, keys_old[p as int]@);
                        }
                    }
                }
            }
            lemma_seq_insert_multiset(kviews_old, p as int, gx);
            assert(cviews.take(idx as int + 1) =~= cviews.take(idx as int).push(
                cviews[idx as int],
            ));
            assert(cviews[idx as int] == gx);
        }
        idx += 1;
    }
    proof {
        broadcast use vstd::seq_lib::group_to_multiset_ensures;

        assert(cviews.take(n as int) =~= cviews);
        assert(kviews.to_multiset() == cviews.to_multiset());
        assert(keys@.len() == collected@.len());
        assert forall|i: int| 0 <= i < keys@.len() implies dict@.dom().contains(
            (#[trigger] keys@[i])@,
        ) by {
            assert(kviews[i] == keys@[i]@);
            assert(kviews.to_multiset().contains(kviews[i]));
            assert(cviews.to_multiset().contains(kviews[i]));
            let c = choose|c: int| 0 <= c < cviews.len() && cviews[c] == kviews[i];
            assert(collected@[c]@ == all[c].0.bytes());
        }
        assert forall|kb: Seq<u8>| dict@.dom().contains(kb) implies exists|i: int|
            0 <= i < keys@.len() && (#[trigger] keys@[i])@ == kb by {
            let a = choose|a: int| 0 <= a < all.len() && (#[trigger] all[a]).0.bytes() == kb;
            assert(cviews[a] == kb);
            assert(cviews.to_multiset().contains(kb));
            assert(kviews.to_multiset().contains(kb));
            let i = choose|i: int| 0 <= i < kviews.len() && kviews[i] == kb;
            assert(keys@[i]@ == kb);
        }
    }
    keys
}

/// One line of the written dictionary: the key, then each word, separated
/// by single spaces.
pub open spec fn dict_line_of(key: Seq<u8>, words: Seq<Seq<u8>>) -> Seq<u8>
    decreases words.len(),
{
    if words.len() == 0 {
        key
    } else {
        dict_line_of(key, words.drop_last()) + seq![32u8] + words.last()
    }
}

/// Build one output line from a key and its words.
fn build_line(key: &Vec<u8>, words: &Vec<String>) -> (line: Vec<u8>)
    ensures
        line@ == dict_line_of(key@, words@.map_values(|w: String| encode_utf8(w@))),
{
    let ghost enc = |w: String| encode_utf8(w@);
    let ghost mapped = words@.map_values(|w: String| encode_utf8(w@));
    let mut line = vstd::slice::slice_to_vec(key.as_slice());
    let n = words.len();
    let mut k: usize = 0;
    proof {
        assert(mapped.take(0) =~= Seq::<Seq<u8>>::empty());
    }
    while k < n
        invariant
            k <= n,
            n == words@.len(),
            mapped == words@.map_values(|w: String| encode_utf8(w@)),
            line@ == dict_line_of(key@, mapped.take(k as int)),
        decreases n - k,
    {
        line.push(0x20);
        let wb = words[k].as_byte_vec();
        let ghost line_mid = line@;
        let m = wb.len();
        let mut q: usize = 0;
        while q < m
            invariant
                q <= m,
                m == wb@.len(),
                line@ == line_mid + wb@.take(q as int),
            decreases m - q,
        {
            line.push(wb[q]);
            proof {
                assert(wb@.take(q as int + 1) =~= wb@.take(q as int).push(wb@[q as int]));
                assert(line@ =~= line_mid + wb@.take(q as int + 1));
            }
            q += 1;
        }
        proof {
            assert(wb@.take(m as int) =~= wb@);
            assert(wb@ == mapped[k as int]);
            assert(mapped.take(k as int + 1).drop_last() =~= mapped.take(k as int));
            assert(mapped.take(k as int + 1).last() == mapped[k as int]);
            assert(line@ =~= dict_line_of(key@, mapped.take(k as int)) + seq![32u8]
                + mapped[k as int]);
        }
        k += 1;
    }
    proof {
        assert(mapped.take(n as int) =~= mapped);
    }
    line
}

/// The lines of the written dictionary, one per key, in the order the keys
/// are given: each key followed by its words.
pub fn dict_lines(dict: &HashMap<Vec<u8>, Vec<String>>, keys: &Vec<Vec<u8>>) -> (lines: Vec<
    Vec<u8>,
>)
    requires
        dict.wf(),
        forall|i: int| 0 <= i < keys@.len() ==> dict@.dom().contains((#[trigger] keys@[i])@),
    ensures
        lines@.len() == keys@.len(),
        forall|i: int|
            0 <= i < keys@.len() ==> (#[trigger] lines@[i])@ == dict_line_of(
                keys@[i]@,
                dict_view(dict@)[keys@[i]@],
            ),
{
    let mut lines: Vec<Vec<u8>> = Vec::new();
    let n = keys.len();
    let mut i: usize = 0;
    while i < n
        invariant
            i <= n,
            n == keys@.len(),
            dict.wf(),
            forall|j: int| 0 <= j < keys@.len() ==> dict@.dom().contains((#[trigger] keys@[j])@),
            lines@.len() == i,
            forall|j: int|
                0 <= j < i ==> (#[trigger] lines@[j])@ == dict_line_of(
                    keys@[j]@,
                    dict_view(dict@)[keys@[j]@],
                ),
        decreases n - i,
    {
        let words = match dict.get(&keys[i]) {
            Some(w) => w,
            None => vstd::pervasive::unreached(),
        };
        let line = build_line(&keys[i], words);
        proof {
            assert(dict_view(dict@)[keys@[i as int]@] == dict@[keys@[i as int]@]@.map_values(
                |w: String| encode_utf8(w@),
            ));
        }
        lines.push(line);
        i += 1;
    }
    lines
}

/// The first position holding byte `b`, or the length if none does.
pub open spec fn find_byte(bytes: Seq<u8>, b: u8) -> nat
    decreases bytes.len(),
{
    if bytes.len() == 0 || bytes[0] == b {
        0
    } else {
        1 + find_byte(bytes.drop_first(), b)
    }
}

/// A scan that passed only other bytes and stopped at `b` or the end found
/// the first occurrence.
proof fn lemma_find_byte_run(bytes: Seq<u8>, b: u8, m: int)
    requires
        0 <= m <= bytes.len(),
        forall|p: int| 0 <= p < m ==> (#[trigger] bytes[p]) != b,
        m < bytes.len() ==> bytes[m] == b,
    ensures
        find_byte(bytes, b) == m,
    decreases m,
{
    if m > 0 {
        assert(bytes.drop_first() =~= bytes.skip(1));
        assert forall|p: int| 0 <= p < m - 1 implies (#[trigger] bytes.drop_first()[p]) != b by {
            assert(bytes.drop_first()[p] == bytes[p + 1]);
        }
        if m - 1 < bytes.drop_first().len() {
            assert(bytes.drop_first()[m - 1] == bytes[m]);
        }
        lemma_find_byte_run(bytes.drop_first(), b, m - 1);
    }
}

/// What remains of the buffer after its first line is consumed: everything
/// past the newline that ends the line's value.
pub open spec fn line_rest(buffer: Seq<u8>) -> Seq<u8> {
    let j = find_byte(buffer, 0x20);
    let k = j + 1 + find_byte(buffer.skip(j as int + 1), 0x0a);
    if k < buffer.len() {
        buffer.skip(k as int + 1)
    } else {
        Seq::empty()
    }
}

/// Whether every line of the buffer holds a space: what the line scanner
/// needs to cut a key from a value.  A tail with no space would send the
/// scan past the end of the buffer.
pub open spec fn lines_have_spaces(buffer: Seq<u8>) -> bool
    decreases buffer.len(),
{
    if buffer.len() == 0 {
        true
    } else {
        find_byte(buffer, 0x20) < buffer.len() && lines_have_spaces(line_rest(buffer))
    }
}

/// The key-to-value map of a buffer of dictionary lines: each line's bytes
/// before its first space map to the bytes from after that space to the
/// line's end, with later lines winning on repeated keys.
pub open spec fn line_map_of(buffer: Seq<u8>) -> Map<Seq<u8>, Seq<u8>>
    decreases buffer.len(),
{
    if buffer.len() == 0 {
        Map::empty()
    } else {
        let j = find_byte(buffer, 0x20);
        if j >= buffer.len() {
            Map::empty()
        } else {
            let k = j + 1 + find_byte(buffer.skip(j as int + 1), 0x0a);
            let key = buffer.take(j as int);
            let val = buffer.subrange(j as int + 1, k as int);
            let m_rest = line_map_of(line_rest(buffer));
            if m_rest.dom().contains(key) {
                m_rest
            } else {
                m_rest.insert(key, val)
            }
        }
    }
}

/// The byte view of a table of byte values.
pub open spec fn line_map_view(m: Map<Seq<u8>, Vec<u8>>) -> Map<Seq<u8>, Seq<u8>> {
    m.map_values(|v: Vec<u8>| v@)
}

/// Parse a buffer of dictionary lines into a table mapping each line's key
/// (the bytes before its first space) to its value (the bytes from after
/// that space to the end of the line).  The bound on the buffer is a
/// machine limit.
pub fn line_map(buffer: &[u8]) -> (map: HashMap<Vec<u8>, Vec<u8>>)
    requires
        lines_have_spaces(buffer@),
        buffer@.len() <= usize::MAX as nat / 64,
    ensures
        map.wf(),
        line_map_view(map@) == line_map_of(buffer@),
{
    let length = buffer.len();
    let mut map: HashMap<Vec<u8>, Vec<u8>> = HashMap::new();
    let mut i: usize = 0;
    let ghost whole = buffer@;
    proof {
        assert(whole.skip(0) =~= whole);
        assert(line_map_view(map@) =~= Map::<Seq<u8>, Seq<u8>>::empty());
        assert(Map::<Seq<u8>, Seq<u8>>::empty().union_prefer_right(line_map_of(whole)) =~= line_map_of(
            whole,
        ));
    }
    let ghost mut rem = whole;
    while i < length
        invariant
            i <= length + 1,
            length == whole.len(),
            buffer@ == whole,
            whole.len() <= usize::MAX as nat / 64,
            rem == if i <= length {
                whole.skip(i as int)
            } else {
                Seq::<u8>::empty()
            },
            lines_have_spaces(rem),
            map.wf(),
            map.spec_len() <= i,
            line_map_view(map@).union_prefer_right(line_map_of(rem)) == line_map_of(whole),
        decreases length + 1 - i,
    {
        let ghost v0 = line_map_view(map@);
        let mut j = i;
        while j < length && buffer[j] != 0x20
            invariant
                i <= j <= length,
                buffer@ == whole,
                length == whole.len(),
                forall|p: int| i <= p < j ==> (#[trigger] whole[p]) != 0x20,
            decreases length - j,
        {
            j += 1;
        }
        proof {
            assert forall|p: int| 0 <= p < j - i implies (#[trigger] rem[p]) != 0x20 by {
                assert(rem[p] == whole[p + i]);
            }
            if (j as int) < length {
                assert(rem[j - i] == whole[j as int]);
            }
            lemma_find_byte_run(rem, 0x20, j as int - i);
            assert(find_byte(rem, 0x20) < rem.len());
            assert(j < length);
        }
        let mut k = j + 1;
        while k < length && buffer[k] != 0x0a
            invariant
                j + 1 <= k <= length,
                buffer@ == whole,
                length == whole.len(),
                forall|p: int| j + 1 <= p < k ==> (#[trigger] whole[p]) != 0x0a,
            decreases length - k,
        {
            k += 1;
        }
        proof {
            let tail = rem.skip(j - i + 1);
            assert(tail =~= whole.skip(j as int + 1));
            assert forall|p: int| 0 <= p < k - j - 1 implies (#[trigger] tail[p]) != 0x0a by {
                assert(tail[p] == whole[p + j + 1]);
            }
            if (k as int) < length {
                assert(tail[k - j - 1] == whole[k as int]);
            }
            lemma_find_byte_run(tail, 0x0a, k as int - j - 1);
        }
        let key = vstd::slice::slice_to_vec(vstd::slice::slice_subrange(buffer, i, j));
        let value = vstd::slice::slice_to_vec(vstd::slice::slice_subrange(buffer, j + 1, k));
        let ghost kb = key@;
        let ghost vb = value@;
        proof {
            assert(kb =~= rem.take(j as int - i));
            assert(vb =~= rem.subrange(j - i + 1, k as int - i));
        }
        let _ = map.insert(key, value);
        proof {
            let m_rest = line_map_of(line_rest(rem));
            assert(line_rest(rem) == if (k as int) < length {
                whole.skip(k as int + 1)
            } else {
                Seq::<u8>::empty()
            }) by {
                if (k as int) < length {
                    assert(rem.skip(k as int - i + 1) =~= whole.skip(k as int + 1));
                }
            }
            assert(line_map_of(rem) == if m_rest.dom().contains(kb) {
                m_rest
            } else {
                m_rest.insert(kb, vb)
            });
            assert(line_map_view(map@) =~= v0.insert(kb, vb));
            assert(v0.insert(kb, vb).union_prefer_right(m_rest) =~= v0.union_prefer_right(
                line_map_of(rem),
            ));
            rem = line_rest(rem);
        }
        i = k + 1;
    }
    proof {
        if i <= length {
            assert(whole.skip(length as int) =~= Seq::<u8>::empty());
        }
        assert(rem =~= Seq::<u8>::empty());
        assert(line_map_of(Seq::<u8>::empty()) =~= Map::<Seq<u8>, Seq<u8>>::empty());
        assert(line_map_view(map@).union_prefer_right(Map::<Seq<u8>, Seq<u8>>::empty())
            =~= line_map_view(map@));
    }
    map
}

} // verus!
