//! The probe sequence of the table, and the theorem that makes probing
//! terminate.
//!
//! For a hash `h` and a table of `2^k` slots, the probe sequence starts at
//! `h mod 2^k` and steps by `i -> (5*i + 1 + perturb) mod 2^k`, where
//! `perturb` starts as the full hash and loses its low 5 bits after every
//! step.  Once the perturbation is exhausted (after 13 steps for a 64-bit
//! hash), the sequence is the linear congruential map `i -> (5*i + 1) mod
//! 2^k`, which has full period: starting anywhere, it visits every slot of
//! the table.  Hence every probe reaches every slot -- in particular an
//! empty one -- within `13 + 2^k` steps.

use vstd::prelude::*;
use vstd::arithmetic::div_mod::{
    lemma_add_mod_noop, lemma_basic_div, lemma_div_denominator, lemma_fundamental_div_mod,
    lemma_mod_bound, lemma_mod_mod, lemma_mod_multiples_vanish, lemma_mul_mod_noop_right,
    lemma_small_mod,
};
use vstd::arithmetic::mul::{lemma_mul_is_associative, lemma_mul_is_commutative};
use vstd::arithmetic::power2::{
    lemma2_to64, lemma_pow2_adds, lemma_pow2_pos, lemma_pow2_unfold, pow2,
};

verus! {

/// The perturbation in effect at step `n`: the hash shifted right by `5*n`
/// bits.
pub open spec fn perturb(hash: u64, n: nat) -> nat {
    (hash as nat) / pow2(5 * n)
}

/// The slot visited at step `n` of the probe sequence for `hash` in a table
/// of `cap` slots.
pub open spec fn probe_at(hash: u64, cap: nat, n: nat) -> nat
    decreases n,
{
    if n == 0 {
        (hash as nat) % cap
    } else {
        (5 * probe_at(hash, cap, (n - 1) as nat) + 1 + perturb(hash, (n - 1) as nat)) % cap
    }
}

/// The slot visited after `j` steps of the pure linear congruential map
/// `i -> (5*i + 1) mod cap`, starting from `s`.
pub open spec fn lcg_at(cap: nat, j: nat, s: nat) -> nat
    decreases j,
{
    if j == 0 {
        s % cap
    } else {
        (5 * lcg_at(cap, (j - 1) as nat, s) + 1) % cap
    }
}

/// The multiplier of the `j`-fold composite of the linear map (5 to the j).
spec fn lcg_mul(j: nat) -> nat
    decreases j,
{
    if j == 0 {
        1
    } else {
        5 * lcg_mul((j - 1) as nat)
    }
}

/// The offset of the `j`-fold composite of the linear map.
spec fn lcg_add(j: nat) -> nat
    decreases j,
{
    if j == 0 {
        0
    } else {
        5 * lcg_add((j - 1) as nat) + 1
    }
}

pub proof fn lemma_probe_at_bound(hash: u64, cap: nat, n: nat)
    requires
        cap > 0,
    ensures
        probe_at(hash, cap, n) < cap,
{
    if n == 0 {
        lemma_mod_bound(hash as int, cap as int);
    } else {
        lemma_mod_bound(
            5 * probe_at(hash, cap, (n - 1) as nat) + 1 + perturb(hash, (n - 1) as nat) as int,
            cap as int,
        );
    }
}

proof fn lemma_lcg_bound(cap: nat, j: nat, s: nat)
    requires
        cap > 0,
    ensures
        lcg_at(cap, j, s) < cap,
{
    if j == 0 {
        lemma_mod_bound(s as int, cap as int);
    } else {
        lemma_mod_bound(5 * lcg_at(cap, (j - 1) as nat, s) as int + 1, cap as int);
    }
}

/// After 13 steps a 64-bit hash is fully shifted out.
proof fn lemma_perturb_dead(hash: u64, n: nat)
    requires
        n >= 13,
    ensures
        perturb(hash, n) == 0,
{
    lemma2_to64();
    vstd::arithmetic::power2::lemma_pow2_strictly_increases(64, 5 * n);
    lemma_basic_div(hash as int, pow2(5 * n) as int);
}

/// Past step 13 the probe sequence is the pure linear congruential map.
proof fn lemma_probe_is_lcg(hash: u64, cap: nat, j: nat)
    requires
        cap > 0,
    ensures
        probe_at(hash, cap, (13 + j) as nat) == lcg_at(cap, j, probe_at(hash, cap, 13)),
    decreases j,
{
    if j == 0 {
        lemma_probe_at_bound(hash, cap, 13);
        lemma_small_mod(probe_at(hash, cap, 13), cap);
    } else {
        lemma_probe_is_lcg(hash, cap, (j - 1) as nat);
        lemma_perturb_dead(hash, (13 + j - 1) as nat);
    }
}

/// Composing probe runs: `j1` steps then `j2` steps is `j1 + j2` steps.
proof fn lemma_lcg_compose(cap: nat, j1: nat, j2: nat, s: nat)
    requires
        cap > 0,
    ensures
        lcg_at(cap, j1 + j2, s) == lcg_at(cap, j2, lcg_at(cap, j1, s)),
    decreases j2,
{
    if j2 == 0 {
        lemma_lcg_bound(cap, j1, s);
        lemma_small_mod(lcg_at(cap, j1, s), cap);
    } else {
        lemma_lcg_compose(cap, j1, (j2 - 1) as nat, s);
    }
}

/// `(5*x + 1) mod cap` depends only on `x mod cap`.
proof fn lemma_lcg_step_mod(cap: nat, x: nat)
    requires
        cap > 0,
    ensures
        (5 * (x % cap) + 1) % cap == (5 * x + 1) % cap,
{
    lemma_mul_mod_noop_right(5, x as int, cap as int);
    lemma_add_mod_noop(5 * (x % cap) as int, 1, cap as int);
    lemma_add_mod_noop(5 * x as int, 1, cap as int);
    assert((5 * (x % cap)) % cap == (5 * x) % cap);
}

/// The closed form of the iterated linear map.
proof fn lemma_lcg_closed(cap: nat, j: nat, s: nat)
    requires
        cap > 0,
    ensures
        lcg_at(cap, j, s) == (lcg_mul(j) * s + lcg_add(j)) % cap,
    decreases j,
{
    if j == 0 {
        assert(lcg_mul(0) == 1 && lcg_add(0) == 0);
        assert(lcg_mul(0) * s + lcg_add(0) == s);
    } else {
        let jp = (j - 1) as nat;
        lemma_lcg_closed(cap, jp, s);
        let z = lcg_mul(jp) * s + lcg_add(jp);
        lemma_lcg_step_mod(cap, z);
        assert(5 * z + 1 == (5 * lcg_mul(jp)) * s + (5 * lcg_add(jp) + 1)) by {
            lemma_mul_is_associative(5, lcg_mul(jp) as int, s as int);
        }
    }
}

/// Halving the modulus halves the iterated map: the sequence in a table of
/// `2*cap` slots projects onto the sequence in a table of `cap` slots.
proof fn lemma_lcg_project(cap: nat, j: nat, s: nat)
    requires
        cap > 0,
    ensures
        lcg_at(2 * cap, j, s) % cap == lcg_at(cap, j, s),
    decreases j,
{
    lemma_mul_is_commutative(2, cap as int);
    if j == 0 {
        lemma_mod_mod(s as int, cap as int, 2);
    } else {
        let jp = (j - 1) as nat;
        lemma_lcg_project(cap, jp, s);
        let x = lcg_at(2 * cap, jp, s);
        lemma_mod_mod(5 * x as int + 1, cap as int, 2);
        lemma_lcg_step_mod(cap, x);
    }
}

/// Running `j2` steps after `j1` steps composes the affine coefficients.
proof fn lemma_coeff_adds(j1: nat, j2: nat)
    ensures
        lcg_mul(j1 + j2) == lcg_mul(j2) * lcg_mul(j1),
        lcg_add(j1 + j2) == lcg_mul(j2) * lcg_add(j1) + lcg_add(j2),
    decreases j2,
{
    if j2 == 0 {
        assert(lcg_mul(0) == 1 && lcg_add(0) == 0);
    } else {
        let jp = (j2 - 1) as nat;
        lemma_coeff_adds(j1, jp);
        lemma_mul_is_associative(5, lcg_mul(jp) as int, lcg_mul(j1) as int);
        lemma_mul_is_associative(5, lcg_mul(jp) as int, lcg_add(j1) as int);
    }
}

/// After `2^k` steps the multiplier is 1 and the offset is `2^k`, modulo
/// `2^(k+1)`: the iterated map shifts everything by half the doubled modulus.
proof fn lemma_coeff_pow2(k: nat)
    ensures
        lcg_mul(pow2(k)) % pow2(k + 1) == 1,
        lcg_add(pow2(k)) % pow2(k + 1) == pow2(k),
    decreases k,
{
    lemma2_to64();
    assert(lcg_mul(0) == 1 && lcg_add(0) == 0);
    assert(lcg_mul(1) == 5 && lcg_add(1) == 1);
    if k == 0 {
        assert(5int % 2 == 1 && 1int % 2 == 1);
    } else if k == 1 {
        assert(lcg_mul(2) == 25 && lcg_add(2) == 6);
        assert(25int % 4 == 1 && 6int % 4 == 2);
    } else {
        let kp = (k - 1) as nat;
        lemma_coeff_pow2(kp);
        let hj = pow2(kp);
        let p = pow2(k);
        let q2 = pow2((kp - 1) as nat);
        lemma_pow2_pos(kp);
        lemma_pow2_pos(k);
        lemma_pow2_pos(k + 1);
        lemma_pow2_unfold(k);
        lemma_pow2_unfold(kp);
        lemma_pow2_unfold(k + 1);
        // p == 2 * hj, hj == 2 * q2, pow2(k + 1) == 2 * p
        let m = lcg_mul(hj);
        let c = lcg_add(hj);
        lemma_fundamental_div_mod(m as int, p as int);
        lemma_fundamental_div_mod(c as int, p as int);
        let a = m as int / p as int;
        let b = c as int / p as int;
        lemma_coeff_adds(hj, hj);
        assert(lcg_mul(p) == m * m);
        assert(lcg_add(p) == m * c + c);
        assert(m * m == 2 * p * (a * a * hj + a) + 1) by (nonlinear_arith)
            requires
                m == p * a + 1,
                p == 2 * hj,
        ;
        assert(m * c + c == 2 * p * (hj * a * b + a * q2 + b) + p) by (nonlinear_arith)
            requires
                m == p * a + 1,
                c == p * b + hj,
                p == 2 * hj,
                hj == 2 * q2,
        ;
        lemma_mod_multiples_vanish(a * a * hj + a, 1, 2 * p as int);
        lemma_mod_multiples_vanish(hj as int * a * b + a * q2 + b, p as int, 2 * p as int);
        lemma_small_mod(1, (2 * p) as nat);
        lemma_small_mod(p, (2 * p) as nat);
    }
}

/// Iterating the linear map `2^k` times in a table of `2^(k+1)` slots moves
/// every start by exactly `2^k`.
proof fn lemma_lcg_shift(k: nat, s: nat)
    ensures
        lcg_at(pow2(k + 1), pow2(k), s) == (s + pow2(k)) % pow2(k + 1),
{
    let p2 = pow2(k + 1);
    lemma_pow2_pos(k + 1);
    lemma_pow2_pos(k);
    lemma_lcg_closed(p2, pow2(k), s);
    lemma_coeff_pow2(k);
    let m = lcg_mul(pow2(k));
    let c = lcg_add(pow2(k));
    lemma_fundamental_div_mod(m as int, p2 as int);
    lemma_fundamental_div_mod(c as int, p2 as int);
    let q = m as int / p2 as int;
    let r = c as int / p2 as int;
    assert(m * s + c == p2 * (q * s + r) + (s + pow2(k))) by (nonlinear_arith)
        requires
            m == p2 * q + 1,
            c == p2 * r + pow2(k),
    ;
    lemma_mod_multiples_vanish(q * s + r, s as int + pow2(k), p2 as int);
}

/// Full period: in a table of `2^k` slots, the linear map visits every slot
/// within `2^k` steps, from any start.
proof fn lemma_lcg_orbit(k: nat, s: nat, t: nat)
    requires
        t < pow2(k),
    ensures
        exists|j: nat| j < pow2(k) && lcg_at(pow2(k), j, s) == t,
    decreases k,
{
    if k == 0 {
        assert(pow2(0) == 1) by {
            lemma2_to64();
        }
        lemma_mod_bound(s as int, 1);
        assert(lcg_at(1, 0, s) == s % 1);
        assert(0 < pow2(0) && lcg_at(pow2(0), 0, s) == t);
    } else {
        let kp = (k - 1) as nat;
        let cap = pow2(kp);
        let cap2 = pow2(k);
        lemma_pow2_unfold(k);
        lemma_pow2_pos(kp);
        lemma_pow2_pos(k);
        let tp = t % cap;
        lemma_mod_bound(t as int, cap as int);
        lemma_lcg_orbit(kp, s, tp);
        let j1 = choose|j: nat| j < cap && lcg_at(cap, j, s) == tp;
        lemma_lcg_project(cap, j1, s);
        let x = lcg_at(cap2, j1, s);
        lemma_lcg_bound(cap2, j1, s);
        lemma_fundamental_div_mod(x as int, cap as int);
        lemma_fundamental_div_mod(t as int, cap as int);
        assert(x == tp || x == tp + cap) by (nonlinear_arith)
            requires
                x == cap * (x as int / cap as int) + tp,
                0 <= tp < cap,
                0 <= x < 2 * cap,
        ;
        assert(t == tp || t == tp + cap) by (nonlinear_arith)
            requires
                t == cap * (t as int / cap as int) + tp,
                0 <= tp < cap,
                0 <= t < 2 * cap,
        ;
        if x == t {
            assert(j1 < pow2(k) && lcg_at(pow2(k), j1, s) == t);
        } else {
            let j2 = j1 + cap;
            lemma_lcg_compose(cap2, j1, cap, s);
            lemma_lcg_shift(kp, x);
            assert(lcg_at(cap2, j2, s) == (x + cap) % cap2);
            if x == tp && t == tp + cap {
                lemma_small_mod(t, cap2);
            } else {
                assert(x == tp + cap && t == tp);
                lemma_mod_multiples_vanish(1, t as int, cap2 as int);
                lemma_small_mod(t, cap2);
                assert((x + cap) % cap2 == (cap2 * 1 + t) % cap2);
            }
            assert(j2 < pow2(k) && lcg_at(pow2(k), j2, s) == t);
        }
    }
}

/// A slot visited by the probe sequence has a first visit: a step that
/// reaches it while no earlier step does.
pub proof fn lemma_least_visit(h: u64, cap: nat, i: nat, n: nat)
    requires
        cap > 0,
        probe_at(h, cap, n) == i,
    ensures
        exists|n0: nat|
            #![trigger probe_at(h, cap, n0)]
            n0 <= n && probe_at(h, cap, n0) == i && (forall|m: nat|
                m < n0 ==> #[trigger] probe_at(h, cap, m) != i),
    decreases n,
{
    if exists|m: nat| m < n && #[trigger] probe_at(h, cap, m) == i {
        let m = choose|m: nat| m < n && #[trigger] probe_at(h, cap, m) == i;
        lemma_least_visit(h, cap, i, m);
        let n0 = choose|n0: nat|
            #![trigger probe_at(h, cap, n0)]
            n0 <= m && probe_at(h, cap, n0) == i && (forall|mm: nat|
                mm < n0 ==> #[trigger] probe_at(h, cap, mm) != i);
        assert(n0 <= n && probe_at(h, cap, n0) == i);
    } else {
        assert(n <= n && probe_at(h, cap, n) == i && (forall|m: nat|
            m < n ==> #[trigger] probe_at(h, cap, m) != i));
    }
}

/// Stepping the perturbation drops its low five bits.
pub proof fn lemma_perturb_step(hash: u64, n: nat)
    ensures
        perturb(hash, n + 1) == perturb(hash, n) / 32,
{
    lemma_pow2_adds(5 * n, 5);
    lemma2_to64();
    lemma_pow2_pos(5 * n);
    lemma_div_denominator(hash as int, pow2(5 * n) as int, 32);
    assert(5 * (n + 1) == 5 * n + 5);
}

/// Wrapping 64-bit addition is addition modulo `2^64`.
proof fn lemma_wrap_add(x: u64, y: u64)
    ensures
        vstd::wrapping::u64_specs::wrapping_add(x, y) as nat == (x as nat + y as nat) % pow2(64),
{
    lemma2_to64();
    let s = x as int + y as int;
    let m = pow2(64) as int;
    if s > u64::MAX as int {
        vstd::arithmetic::div_mod::lemma_mod_sub_multiples_vanish(s, m);
        lemma_small_mod((s - m) as nat, pow2(64));
    } else {
        lemma_small_mod(s as nat, pow2(64));
    }
}

/// The first slot of the probe sequence: the hash masked to the table size.
pub(crate) fn probe_start_index(hash: u64, mask: u64, Ghost(lg): Ghost<nat>) -> (r: u64)
    requires
        lg < 64,
        mask as nat == vstd::bits::low_bits_mask(lg),
    ensures
        r as nat == probe_at(hash, pow2(lg), 0),
        r as nat == (hash as nat) % pow2(lg),
    {
    proof {
        vstd::bits::lemma_u64_low_bits_mask_is_mod(hash, lg);
        lemma_pow2_pos(lg);
        vstd::bits::lemma_u64_pow2_no_overflow(lg);
    }
    hash & mask
}

/// One step of the probe index computation: `(5*i + 1 + p)` masked to the
/// table size.  The arithmetic wraps, but only the masked low bits matter.
pub(crate) fn probe_step_index(i: u64, p: u64, mask: u64, Ghost(lg): Ghost<nat>) -> (r: u64)
    requires
        lg < 64,
        mask as nat == vstd::bits::low_bits_mask(lg),
    ensures
        r as nat == (5 * (i as nat) + 1 + (p as nat)) % pow2(lg),
{
    let a = 5u64.wrapping_mul(i);
    let b = a.wrapping_add(1);
    let c = b.wrapping_add(p);
    proof {
        lemma2_to64();
        let m = pow2(64) as int;
        let z: int = 5 * (i as int) + 1 + (p as int);
        assert(a as nat == (5 * (i as nat)) % pow2(64));
        lemma_wrap_add(a, 1);
        lemma_wrap_add(b, p);
        lemma_small_mod(1, pow2(64));
        lemma_small_mod(p as nat, pow2(64));
        lemma_add_mod_noop(5 * (i as int), 1, m);
        lemma_add_mod_noop(5 * (i as int) + 1, p as int, m);
        assert(c as int == z % m);
        lemma_pow2_adds(lg, (64 - lg) as nat);
        lemma_pow2_pos(lg);
        lemma_pow2_pos((64 - lg) as nat);
        assert(pow2(64) == pow2(lg) * pow2((64 - lg) as nat));
        lemma_mod_mod(z, pow2(lg) as int, pow2((64 - lg) as nat) as int);
        assert((z % m) % pow2(lg) as int == z % pow2(lg) as int) by {
            vstd::arithmetic::mul::lemma_mul_is_commutative(
                pow2(lg) as int,
                pow2((64 - lg) as nat) as int,
            );
        }
        vstd::bits::lemma_u64_low_bits_mask_is_mod(c, lg);
        vstd::bits::lemma_u64_pow2_no_overflow(lg);
        assert(mask == vstd::bits::low_bits_mask(lg) as u64);
        assert((c & mask) as nat == (c as nat) % pow2(lg));
    }
    c & mask
}

/// Every slot of the table -- in particular any empty one -- is visited by
/// the probe sequence within `13 + 2^k` steps.
pub proof fn lemma_probe_covers(hash: u64, k: nat, e: nat)
    requires
        e < pow2(k),
    ensures
        exists|n: nat| n < 13 + pow2(k) && probe_at(hash, pow2(k), n) == e,
{
    let cap = pow2(k);
    lemma_pow2_pos(k);
    lemma_lcg_orbit(k, probe_at(hash, cap, 13), e);
    let j = choose|j: nat| j < cap && lcg_at(cap, j, probe_at(hash, cap, 13)) == e;
    lemma_probe_is_lcg(hash, cap, j);
    assert(((13 + j) as nat) < 13 + pow2(k) && probe_at(hash, pow2(k), (13 + j) as nat) == e);
}

} // verus!
