//! Combination and permutation enumeration, and in-place partial reversal.
//!
//! Combinations are `r`-element subsequences, emitted in lexicographic
//! order of positions; permutations are all arrangements, emitted in
//! lexicographic order of positions (elements count by position, so
//! duplicated values yield duplicated rows).

use vstd::prelude::*;

verus! {

/// Every `r`-element subsequence of `values`, in lexicographic order of
/// positions.
pub open spec fn combinations_of<T>(values: Seq<T>, r: nat) -> Seq<Seq<T>>
    decreases values.len(),
{
    if r == 0 {
        seq![Seq::<T>::empty()]
    } else if values.len() < r {
        Seq::empty()
    } else {
        combinations_of(values.drop_first(), (r - 1) as nat).map_values(
            |c: Seq<T>| seq![values[0]] + c,
        ) + combinations_of(values.drop_first(), r)
    }
}

/// Every arrangement of `values`, in lexicographic order of positions.
pub open spec fn permutations_of<T>(s: Seq<T>) -> Seq<Seq<T>>
    decreases s.len(), 1int, 0int,
{
    if s.len() == 0 {
        seq![Seq::<T>::empty()]
    } else {
        perms_branch(s, 0)
    }
}

/// The arrangements that pick position `i` or a later one first.
pub open spec fn perms_branch<T>(s: Seq<T>, i: nat) -> Seq<Seq<T>>
    decreases s.len(), 0int, s.len() - i,
{
    if i >= s.len() {
        Seq::empty()
    } else {
        permutations_of(s.remove(i as int)).map_values(|p: Seq<T>| seq![s[i as int]] + p)
            + perms_branch(s, i + 1)
    }
}

/// The combinations of the suffix of `values` from `start` on.
fn combos_rec<T: Copy>(values: &[T], start: usize, r: usize) -> (out: Vec<Vec<T>>)
    requires
        start <= values@.len(),
    ensures
        out@.map_values(|c: Vec<T>| c@) == combinations_of(values@.skip(start as int), r as nat),
    decreases values@.len() - start,
{
    let ghost tail = values@.skip(start as int);
    if r == 0 {
        let mut out: Vec<Vec<T>> = Vec::new();
        out.push(Vec::new());
        proof {
            assert(out@.map_values(|c: Vec<T>| c@) =~= seq![Seq::<T>::empty()]);
        }
        return out;
    }
    if values.len() - start < r {
        let out: Vec<Vec<T>> = Vec::new();
        proof {
            assert(out@.map_values(|c: Vec<T>| c@) =~= Seq::<Seq<T>>::empty());
        }
        return out;
    }
    proof {
        assert(tail[0] == values@[start as int]);
        assert(tail.drop_first() =~= values@.skip(start as int + 1));
    }
    let with_first = combos_rec(values, start + 1, r - 1);
    let head = values[start];
    let mut out: Vec<Vec<T>> = Vec::new();
    let mut i: usize = 0;
    while i < with_first.len()
        invariant
            i <= with_first@.len(),
            start < values@.len(),
            head == values@[start as int],
            out@.len() == i,
            forall|k: int|
                0 <= k < i ==> (#[trigger] out@[k])@ == seq![values@[start as int]]
                    + with_first@[k]@,
        decreases with_first@.len() - i,
    {
        let mut nc: Vec<T> = Vec::new();
        nc.push(head);
        let m = with_first[i].len();
        let mut k2: usize = 0;
        while k2 < m
            invariant
                k2 <= m,
                i < with_first@.len(),
                m == with_first@[i as int]@.len(),
                head == values@[start as int],
                start < values@.len(),
                nc@ == seq![values@[start as int]] + with_first@[i as int]@.take(k2 as int),
            decreases m - k2,
        {
            nc.push(with_first[i][k2]);
            proof {
                assert(with_first@[i as int]@.take(k2 as int + 1) =~= with_first@[i as int]@.take(
                    k2 as int,
                ).push(with_first@[i as int]@[k2 as int]));
                assert(nc@ =~= seq![values@[start as int]] + with_first@[i as int]@.take(
                    k2 as int + 1,
                ));
            }
            k2 += 1;
        }
        proof {
            assert(with_first@[i as int]@.take(m as int) =~= with_first@[i as int]@);
        }
        out.push(nc);
        i += 1;
    }
    let mut rest = combos_rec(values, start + 1, r);
    let ghost out_before = out@;
    out.append(&mut rest);
    proof {
        let view_of = |c: Vec<T>| c@;
        let prefix_with = |c: Seq<T>| seq![tail[0]] + c;
        assert(combinations_of(tail, r as nat) == combinations_of(
            tail.drop_first(),
            (r - 1) as nat,
        ).map_values(prefix_with) + combinations_of(tail.drop_first(), r as nat));
        assert(out@.map_values(view_of) =~= combinations_of(tail, r as nat)) by {
            assert(out_before.map_values(view_of) =~= combinations_of(
                tail.drop_first(),
                (r - 1) as nat,
            ).map_values(prefix_with)) by {
                assert(with_first@.map_values(view_of) == combinations_of(
                    tail.drop_first(),
                    (r - 1) as nat,
                ));
                assert forall|k: int| 0 <= k < out_before.len() implies out_before.map_values(
                    view_of,
                )[k] == combinations_of(tail.drop_first(), (r - 1) as nat).map_values(
                    prefix_with,
                )[k] by {
                    assert(out_before[k]@ == seq![values@[start as int]] + with_first@[k]@);
                }
            }
        }
    }
    out
}

/// Every `r`-element combination of `values`, each in position order,
/// combinations in lexicographic order of positions.  Asking for zero
/// elements, or for more than there are, produces nothing.
pub fn each_combination<T: Copy>(values: &[T], r: usize) -> (out: Vec<Vec<T>>)
    ensures
        r == 0 || r > values@.len() ==> out@.len() == 0,
        0 < r <= values@.len() ==> out@.map_values(|c: Vec<T>| c@) == combinations_of(
            values@,
            r as nat,
        ),
{
    if r == 0 || r > values.len() {
        return Vec::new();
    }
    let out = combos_rec(values, 0, r);
    proof {
        assert(values@.skip(0) =~= values@);
    }
    out
}

/// Every `r`-element combination of `values`: the variant for callers
/// that enumerate by reference; with copyable elements, copies serve.
pub fn each_combination_ref<T: Copy>(values: &[T], r: usize) -> (out: Vec<Vec<T>>)
    ensures
        r == 0 || r > values@.len() ==> out@.len() == 0,
        0 < r <= values@.len() ==> out@.map_values(|c: Vec<T>| c@) == combinations_of(
            values@,
            r as nat,
        ),
{
    each_combination(values, r)
}

/// Reverse `v[start..end]` in place, leaving the rest alone.  The range
/// must lie inside the vector and must not be the degenerate `[0, 0)`,
/// whose upper edge would have to wrap below zero.
pub fn reverse_part<T: Copy>(v: &mut Vec<T>, start: usize, end: usize)
    requires
        start <= end,
        end <= old(v)@.len(),
        end >= 1,
    ensures
        final(v)@.len() == old(v)@.len(),
        forall|p: int| 0 <= p < start ==> final(v)@[p] == old(v)@[p],
        forall|p: int| end <= p < old(v)@.len() ==> final(v)@[p] == old(v)@[p],
        forall|p: int| start <= p < end ==> final(v)@[p] == old(v)@[start + end - 1 - p],
{
    let mut i = start;
    let mut j = end - 1;
    while i < j
        invariant
            start <= i,
            j < end,
            i + j == start + end - 1,
            v@.len() == old(v)@.len(),
            end <= old(v)@.len(),
            forall|p: int| 0 <= p < start ==> v@[p] == old(v)@[p],
            forall|p: int| end <= p < old(v)@.len() ==> v@[p] == old(v)@[p],
            forall|p: int| start <= p < i ==> v@[p] == old(v)@[start + end - 1 - p],
            forall|p: int| j < p < end ==> v@[p] == old(v)@[start + end - 1 - p],
            forall|p: int| i <= p <= j ==> v@[p] == old(v)@[p],
        decreases j + 1 - i,
    {
        let vi = v[i];
        let vj = v[j];
        v.set(i, vj);
        v.set(j, vi);
        i += 1;
        j -= 1;
    }
}

/// The permutations of `values`, in lexicographic order of positions.
fn perms_rec<T: Copy>(values: &[T]) -> (out: Vec<Vec<T>>)
    ensures
        out@.map_values(|p: Vec<T>| p@) == permutations_of(values@),
    decreases values@.len(),
{
    let n = values.len();
    let mut out: Vec<Vec<T>> = Vec::new();
    if n == 0 {
        out.push(Vec::new());
        proof {
            assert(out@.map_values(|p: Vec<T>| p@) =~= seq![Seq::<T>::empty()]);
        }
        return out;
    }
    let mut i: usize = 0;
    while i < n
        invariant
            i <= n,
            n == values@.len(),
            n >= 1,
            out@.map_values(|p: Vec<T>| p@) + perms_branch(values@, i as nat) == perms_branch(
                values@,
                0,
            ),
        decreases n - i,
    {
        // the elements around position i, in order
        let mut rest: Vec<T> = Vec::new();
        let mut j: usize = 0;
        while j < i
            invariant
                j <= i,
                i < n,
                n == values@.len(),
                rest@ == values@.take(j as int),
            decreases i - j,
        {
            rest.push(values[j]);
            proof {
                assert(values@.take(j as int + 1) =~= values@.take(j as int).push(
                    values@[j as int],
                ));
            }
            j += 1;
        }
        let mut j2: usize = i + 1;
        while j2 < n
            invariant
                i < j2 <= n,
                i < n,
                n == values@.len(),
                rest@ == values@.take(i as int) + values@.subrange(i as int + 1, j2 as int),
            decreases n - j2,
        {
            rest.push(values[j2]);
            proof {
                assert(values@.subrange(i as int + 1, j2 as int + 1) =~= values@.subrange(
                    i as int + 1,
                    j2 as int,
                ).push(values@[j2 as int]));
                assert(values@.take(i as int) + values@.subrange(i as int + 1, j2 as int + 1) =~= (
                values@.take(i as int) + values@.subrange(i as int + 1, j2 as int)).push(
                    values@[j2 as int],
                ));
            }
            j2 += 1;
        }
        proof {
            assert(rest@ =~= values@.remove(i as int));
        }
        let sub = perms_rec(rest.as_slice());
        let head = values[i];
        let ghost out_at_branch = out@;
        let mut k: usize = 0;
        while k < sub.len()
            invariant
                k <= sub@.len(),
                i < n,
                n == values@.len(),
                head == values@[i as int],
                out@.len() == out_at_branch.len() + k,
                forall|q: int| 0 <= q < out_at_branch.len() ==> out@[q] == out_at_branch[q],
                forall|q: int|
                    0 <= q < k ==> (#[trigger] out@[out_at_branch.len() + q])@ == seq![
                        values@[i as int],
                    ] + sub@[q]@,
            decreases sub@.len() - k,
        {
            let mut np: Vec<T> = Vec::new();
            np.push(head);
            let m = sub[k].len();
            let mut k2: usize = 0;
            while k2 < m
                invariant
                    k2 <= m,
                    k < sub@.len(),
                    m == sub@[k as int]@.len(),
                    head == values@[i as int],
                    i < n,
                    n == values@.len(),
                    np@ == seq![values@[i as int]] + sub@[k as int]@.take(k2 as int),
                decreases m - k2,
            {
                np.push(sub[k][k2]);
                proof {
                    assert(sub@[k as int]@.take(k2 as int + 1) =~= sub@[k as int]@.take(
                        k2 as int,
                    ).push(sub@[k as int]@[k2 as int]));
                    assert(np@ =~= seq![values@[i as int]] + sub@[k as int]@.take(k2 as int + 1));
                }
                k2 += 1;
            }
            proof {
                assert(sub@[k as int]@.take(m as int) =~= sub@[k as int]@);
            }
            out.push(np);
            k += 1;
        }
        proof {
            let view_of = |p: Vec<T>| p@;
            let prefix_with = |p: Seq<T>| seq![values@[i as int]] + p;
            assert(perms_branch(values@, i as nat) == permutations_of(
                values@.remove(i as int),
            ).map_values(prefix_with) + perms_branch(values@, i as nat + 1));
            assert(out@.map_values(view_of) =~= out_at_branch.map_values(view_of)
                + permutations_of(values@.remove(i as int)).map_values(prefix_with)) by {
                assert(sub@.map_values(view_of) == permutations_of(values@.remove(i as int)));
                assert forall|q: int| 0 <= q < out@.len() implies out@.map_values(view_of)[q] == (
                out_at_branch.map_values(view_of) + permutations_of(
                    values@.remove(i as int),
                ).map_values(prefix_with))[q] by {
                    if q >= out_at_branch.len() {
                        let q2 = q - out_at_branch.len();
                        assert(out@[out_at_branch.len() + q2]@ == seq![values@[i as int]]
                            + sub@[q2]@);
                    }
                }
            }
        }
        i += 1;
    }
    proof {
        assert(perms_branch(values@, n as nat) =~= Seq::<Seq<T>>::empty());
        assert(out@.map_values(|p: Vec<T>| p@) =~= out@.map_values(|p: Vec<T>| p@) + Seq::<
            Seq<T>,
        >::empty());
    }
    out
}

/// Every permutation of `values`, in lexicographic order of positions.
pub fn each_permutation<T: Copy>(values: &[T]) -> (out: Vec<Vec<T>>)
    ensures
        out@.map_values(|p: Vec<T>| p@) == permutations_of(values@),
{
    perms_rec(values)
}

/// Every permutation of `values`: the variant for callers that enumerate
/// by reference; with copyable elements, copies serve.
pub fn each_permutation_ref<T: Copy>(values: &[T]) -> (out: Vec<Vec<T>>)
    ensures
        out@.map_values(|p: Vec<T>| p@) == permutations_of(values@),
{
    perms_rec(values)
}

} // verus!
