//! Binary search for insertion points in sorted slices.
//!
//! `bisect_left` finds the leftmost position at which the probe value could
//! be inserted while keeping the slice sorted; `bisect_right` the
//! rightmost.  The `lo`/`hi` parameters restrict the search to a
//! subsequence.  The bound on `hi` is a machine limit: a slice longer than
//! half the address space cannot exist, and the midpoint sum must not wrap.

use vstd::prelude::*;

use crate::keys::{bytes_lt, lemma_lex_transitive, lemma_lex_trichotomy, lex_lt};

verus! {

/// Locate the leftmost insertion point for `x` in the sorted range
/// `[lo, hi)` of `a`: everything below the result is strictly less than
/// `x`, everything from it on is at least `x`.
pub fn bisect_left(a: &[u64], x: u64, lo: usize, hi: usize) -> (r: usize)
    requires
        lo <= hi <= a@.len(),
        hi <= usize::MAX / 2,
        forall|i: int, j: int| lo <= i <= j < hi ==> a@[i] <= a@[j],
    ensures
        lo <= r <= hi,
        forall|j: int| lo <= j < r ==> a@[j] < x,
        forall|j: int| r <= j < hi ==> x <= a@[j],
{
    let ghost lo0 = lo as int;
    let ghost hi0 = hi as int;
    let mut lo = lo;
    let mut hi = hi;
    while lo < hi
        invariant
            lo0 <= lo <= hi <= hi0 <= a@.len(),
            hi0 <= usize::MAX / 2,
            forall|i: int, j: int| lo0 <= i <= j < hi0 ==> a@[i] <= a@[j],
            forall|j: int| lo0 <= j < lo ==> a@[j] < x,
            forall|j: int| hi <= j < hi0 ==> x <= a@[j],
        decreases hi - lo,
    {
        let mid = (lo + hi) / 2;
        if a[mid] < x {
            proof {
                assert forall|j: int| lo0 <= j < mid + 1 implies a@[j] < x by {
                    if lo <= j {
                        assert(a@[j] <= a@[mid as int]);
                    }
                }
            }
            lo = mid + 1;
        } else {
            proof {
                assert forall|j: int| mid <= j < hi0 implies x <= a@[j] by {
                    assert(a@[mid as int] <= a@[j]);
                }
            }
            hi = mid;
        }
    }
    lo
}

/// Locate the rightmost insertion point for `x` in the sorted range
/// `[lo, hi)` of `a`: everything below the result is at most `x`,
/// everything from it on is strictly greater.
pub fn bisect_right(a: &[u64], x: u64, lo: usize, hi: usize) -> (r: usize)
    requires
        lo <= hi <= a@.len(),
        hi <= usize::MAX / 2,
        forall|i: int, j: int| lo <= i <= j < hi ==> a@[i] <= a@[j],
    ensures
        lo <= r <= hi,
        forall|j: int| lo <= j < r ==> a@[j] <= x,
        forall|j: int| r <= j < hi ==> x < a@[j],
{
    let ghost lo0 = lo as int;
    let ghost hi0 = hi as int;
    let mut lo = lo;
    let mut hi = hi;
    while lo < hi
        invariant
            lo0 <= lo <= hi <= hi0 <= a@.len(),
            hi0 <= usize::MAX / 2,
            forall|i: int, j: int| lo0 <= i <= j < hi0 ==> a@[i] <= a@[j],
            forall|j: int| lo0 <= j < lo ==> a@[j] <= x,
            forall|j: int| hi <= j < hi0 ==> x < a@[j],
        decreases hi - lo,
    {
        let mid = (lo + hi) / 2;
        if x < a[mid] {
            proof {
                assert forall|j: int| mid <= j < hi0 implies x < a@[j] by {
                    assert(a@[mid as int] <= a@[j]);
                }
            }
            hi = mid;
        } else {
            proof {
                assert forall|j: int| lo0 <= j < mid + 1 implies a@[j] <= x by {
                    if lo <= j {
                        assert(a@[j] <= a@[mid as int]);
                    }
                }
            }
            lo = mid + 1;
        }
    }
    lo
}

/// Locate the leftmost insertion point for the byte string `x` in a range
/// of byte strings sorted in dictionary order, comparing by reference.
pub fn bisect_left_ref(a: &[Vec<u8>], x: &Vec<u8>, lo: usize, hi: usize) -> (r: usize)
    requires
        lo <= hi <= a@.len(),
        hi <= usize::MAX / 2,
        forall|i: int, j: int| lo <= i <= j < hi ==> !lex_lt(a@[j]@, a@[i]@),
    ensures
        lo <= r <= hi,
        forall|j: int| lo <= j < r ==> lex_lt(a@[j]@, x@),
        forall|j: int| r <= j < hi ==> !lex_lt(a@[j]@, x@),
{
    let ghost lo0 = lo as int;
    let ghost hi0 = hi as int;
    let mut lo = lo;
    let mut hi = hi;
    while lo < hi
        invariant
            lo0 <= lo <= hi <= hi0 <= a@.len(),
            hi0 <= usize::MAX / 2,
            forall|i: int, j: int| lo0 <= i <= j < hi0 ==> !lex_lt(a@[j]@, a@[i]@),
            forall|j: int| lo0 <= j < lo ==> lex_lt(a@[j]@, x@),
            forall|j: int| hi <= j < hi0 ==> !lex_lt(a@[j]@, x@),
        decreases hi - lo,
    {
        let mid = (lo + hi) / 2;
        if bytes_lt(&a[mid], x) {
            proof {
                assert forall|j: int| lo0 <= j < mid + 1 implies lex_lt(a@[j]@, x@) by {
                    if lo <= j && j < mid {
                        assert(!lex_lt(a@[mid as int]@, a@[j]@));
                        lemma_lex_trichotomy(a@[j]@, a@[mid as int]@);
                        if a@[j]@ != a@[mid as int]@ {
                            lemma_lex_transitive(a@[j]@, a@[mid as int]@, x@);
                        }
                    }
                }
            }
            lo = mid + 1;
        } else {
            proof {
                assert forall|j: int| mid <= j < hi0 implies !lex_lt(a@[j]@, x@) by {
                    assert(!lex_lt(a@[j]@, a@[mid as int]@));
                    if lex_lt(a@[j]@, x@) {
                        lemma_lex_trichotomy(a@[mid as int]@, a@[j]@);
                        if lex_lt(a@[mid as int]@, a@[j]@) {
                            lemma_lex_transitive(a@[mid as int]@, a@[j]@, x@);
                        }
                    }
                }
            }
            hi = mid;
        }
    }
    lo
}

/// Locate the leftmost insertion point for `x` using a caller-supplied
/// strict comparison.  The comparison must answer consistently with the
/// sort order of the range: once it can answer "not below `x`" at some
/// position, it cannot answer "below `x`" later, and the other way around.
pub fn bisect_left_with_compare<T, F: Fn(&T, &T) -> bool>(
    a: &[T],
    x: &T,
    lo: usize,
    hi: usize,
    lt: F,
) -> (r: usize)
    requires
        lo <= hi <= a@.len(),
        hi <= usize::MAX / 2,
        forall|i: int| lo <= i < hi ==> call_requires(lt, (&a@[i], x)),
        forall|i: int, j: int, b1: bool|
            lo <= i <= j < hi && #[trigger] call_ensures(lt, (&a@[j], x), true)
                && #[trigger] call_ensures(lt, (&a@[i], x), b1) ==> b1,
        forall|i: int, j: int, b2: bool|
            lo <= i <= j < hi && #[trigger] call_ensures(lt, (&a@[i], x), false)
                && #[trigger] call_ensures(lt, (&a@[j], x), b2) ==> !b2,
    ensures
        lo <= r <= hi,
        forall|j: int| lo <= j < r ==> !call_ensures(lt, (&a@[j], x), false),
        forall|j: int| r <= j < hi ==> !call_ensures(lt, (&a@[j], x), true),
{
    let ghost lo0 = lo as int;
    let ghost hi0 = hi as int;
    let mut lo = lo;
    let mut hi = hi;
    #[verifier::loop_isolation(false)]
    while lo < hi
        invariant
            lo0 <= lo <= hi <= hi0 <= a@.len(),
            lo == lo0 || call_ensures(lt, (&a@[lo - 1], x), true),
            hi == hi0 || call_ensures(lt, (&a@[hi as int], x), false),
        decreases hi - lo,
    {
        let mid = (lo + hi) / 2;
        if lt(&a[mid], x) {
            lo = mid + 1;
        } else {
            hi = mid;
        }
    }
    proof {
        assert forall|j: int| lo0 <= j < lo implies !call_ensures(lt, (&a@[j], x), false) by {
            if call_ensures(lt, (&a@[j], x), false) {
                assert(call_ensures(lt, (&a@[lo - 1], x), true));
            }
        }
        assert forall|j: int| lo <= j < hi0 implies !call_ensures(lt, (&a@[j], x), true) by {
            if call_ensures(lt, (&a@[j], x), true) {
                assert(call_ensures(lt, (&a@[hi as int], x), false));
            }
        }
    }
    lo
}

} // verus!
