//! Modular inversion by the extended Euclidean algorithm, together with
//! the gcd theory that justifies it.
//!
//! The algorithm tracks, alongside the classic remainder sequence, the
//! Bezout coefficient of each remainder reduced modulo p.  When the gcd
//! of the input and p is 1 — which holds for every non-zero residue,
//! p being prime — the surviving coefficient is the multiplicative
//! inverse.  Primality of p itself is beyond these proofs; what is
//! proved computationally is that p has no divisor below
//! `SMALL_FACTOR_BOUND`, which makes every non-zero residue below that
//! bound provably invertible.

use crate::field::{fmul, fsub, is_felt, modp, mul_modp, p, sub_modp, PR};
use vstd::arithmetic::div_mod::{
    lemma_add_mod_noop, lemma_fundamental_div_mod, lemma_mod_bound, lemma_mod_self_0,
    lemma_mul_mod_noop_left, lemma_mul_mod_noop_right, lemma_small_mod, lemma_sub_mod_noop,
};
use vstd::arithmetic::mul::{
    lemma_mul_is_associative, lemma_mul_is_commutative, lemma_mul_is_distributive_add,
    lemma_mul_is_distributive_sub_other_way,
};
use vstd::prelude::*;

verus! {

/// Greatest common divisor by the Euclidean recurrence.
pub open spec fn spec_gcd(a: nat, b: nat) -> nat
    decreases b,
{
    if b == 0 {
        a
    } else {
        spec_gcd(b, a % b)
    }
}

/// One step of the extended Euclidean recurrence, with the Bezout
/// coefficients of the two live remainders kept reduced modulo p.
/// Returns (gcd, x, y) where x and y are the reduced coefficients of
/// the original pair of inputs in the combination that yields the gcd.
pub open spec fn spec_egcd(r0: u64, r1: u64, x0: u64, y0: u64, x1: u64, y1: u64) -> (u64, u64, u64)
    decreases r1,
{
    if r1 == 0 {
        (r0, x0, y0)
    } else {
        let q = (r0 / r1) as int % p();
        let x2 = fsub(x0 as int, fmul(q, x1 as int)) as u64;
        let y2 = fsub(y0 as int, fmul(q, y1 as int)) as u64;
        spec_egcd(r1, r0 % r1, x1, y1, x2, y2)
    }
}

/// The inverse of a modulo p when gcd(a, p) == 1, and 0 otherwise.
pub open spec fn spec_inverse(a: u64) -> u64 {
    let (g, x, y) = spec_egcd(a, PR, 1, 0, 0, 1);
    if g == 1 {
        x
    } else {
        0
    }
}

/// Replacing the quotient by its residue, then multiplying and
/// subtracting modulo p, agrees with the exact combination x0 - q * x1
/// modulo p.
proof fn lemma_reduced_combination(x0: int, q: int, x1: int)
    requires
        q >= 0,
    ensures
        fsub(x0, fmul(q % p(), x1)) == (x0 - q * x1) % p(),
{
    assert((q % p() * x1) % p() == (q * x1) % p()) by {
        lemma_mul_mod_noop_left(q, x1, p());
    }
    assert((x0 - (q * x1) % p()) % p() == (x0 - q * x1) % p()) by {
        vstd::arithmetic::div_mod::lemma_sub_mod_noop_right(x0, q * x1, p());
    }
}

/// One Euclidean step preserves the Bezout congruence: if x0, y0
/// combine to r0 and x1, y1 combine to r1 modulo p, then the freshly
/// reduced coefficients combine to the remainder r0 % r1.
proof fn lemma_bezout_step(a: int, b: int, r0: int, r1: int, x0: int, y0: int, x1: int, y1: int)
    requires
        0 < r1,
        0 <= r0,
        (x0 * a + y0 * b) % p() == r0 % p(),
        (x1 * a + y1 * b) % p() == r1 % p(),
    ensures
        ({
            let q = (r0 / r1) % p();
            (fsub(x0, fmul(q, x1)) * a + fsub(y0, fmul(q, y1)) * b) % p() == (r0 % r1) % p()
        }),
{
    let q = r0 / r1;
    let x2 = fsub(x0, fmul(q % p(), x1));
    let y2 = fsub(y0, fmul(q % p(), y1));
    lemma_reduced_combination(x0, q, x1);
    lemma_reduced_combination(y0, q, y1);
    // x2 and y2 are residues of the exact combinations.
    assert(x2 % p() == (x0 - q * x1) % p()) by {
        vstd::arithmetic::div_mod::lemma_mod_twice(x0 - q * x1, p());
    }
    assert(y2 % p() == (y0 - q * y1) % p()) by {
        vstd::arithmetic::div_mod::lemma_mod_twice(y0 - q * y1, p());
    }
    // (x2 a + y2 b) % p == ((x0 - q x1) a + (y0 - q y1) b) % p
    assert((x2 * a) % p() == ((x0 - q * x1) * a) % p()) by {
        lemma_mul_mod_noop_left(x2, a, p());
        lemma_mul_mod_noop_left(x0 - q * x1, a, p());
    }
    assert((y2 * b) % p() == ((y0 - q * y1) * b) % p()) by {
        lemma_mul_mod_noop_left(y2, b, p());
        lemma_mul_mod_noop_left(y0 - q * y1, b, p());
    }
    assert((x2 * a + y2 * b) % p() == ((x0 - q * x1) * a + (y0 - q * y1) * b) % p()) by {
        lemma_add_mod_noop(x2 * a, y2 * b, p());
        lemma_add_mod_noop((x0 - q * x1) * a, (y0 - q * y1) * b, p());
    }
    // Expand the exact combinations and regroup around q.
    let u = x0 * a + y0 * b;
    let v = x1 * a + y1 * b;
    assert((x0 - q * x1) * a == x0 * a - q * (x1 * a)) by {
        lemma_mul_is_distributive_sub_other_way(a, x0, q * x1);
        lemma_mul_is_associative(q, x1, a);
    }
    assert((y0 - q * y1) * b == y0 * b - q * (y1 * b)) by {
        lemma_mul_is_distributive_sub_other_way(b, y0, q * y1);
        lemma_mul_is_associative(q, y1, b);
    }
    assert(q * (x1 * a) + q * (y1 * b) == q * v) by {
        lemma_mul_is_distributive_add(q, x1 * a, y1 * b);
    }
    assert((x0 - q * x1) * a + (y0 - q * y1) * b == u - q * v);
    // (u - q v) % p == (r0 - q r1) % p, using the two hypotheses.
    assert((q * v) % p() == (q * r1) % p()) by {
        lemma_mul_mod_noop_right(q, v, p());
        lemma_mul_mod_noop_right(q, r1, p());
    }
    assert((u - q * v) % p() == (r0 - q * r1) % p()) by {
        lemma_sub_mod_noop(u, q * v, p());
        lemma_sub_mod_noop(r0, q * r1, p());
    }
    // r0 - q r1 is exactly the remainder.
    assert(r0 % r1 == r0 - q * r1) by {
        lemma_fundamental_div_mod(r0, r1);
        lemma_mul_is_commutative(r1, q);
    }
}

/// The extended Euclidean recurrence returns the gcd of its remainder
/// pair together with reduced Bezout coefficients for the original
/// inputs a and b.
pub proof fn lemma_spec_egcd(r0: u64, r1: u64, x0: u64, y0: u64, x1: u64, y1: u64, a: u64, b: u64)
    requires
        is_felt(x0),
        is_felt(y0),
        is_felt(x1),
        is_felt(y1),
        (x0 * a + y0 * b) % p() == r0 as int % p(),
        (x1 * a + y1 * b) % p() == r1 as int % p(),
    ensures
        ({
            let (g, x, y) = spec_egcd(r0, r1, x0, y0, x1, y1);
            &&& g == spec_gcd(r0 as nat, r1 as nat)
            &&& is_felt(x)
            &&& is_felt(y)
            &&& (x * a + y * b) % p() == g as int % p()
        }),
    decreases r1,
{
    if r1 == 0 {
        assert(spec_gcd(r0 as nat, 0) == r0 as nat);
    } else {
        let q = (r0 / r1) as int % p();
        let x2i = fsub(x0 as int, fmul(q, x1 as int));
        let y2i = fsub(y0 as int, fmul(q, y1 as int));
        lemma_mod_bound(x0 as int - fmul(q, x1 as int), p());
        lemma_mod_bound(y0 as int - fmul(q, y1 as int), p());
        let x2 = x2i as u64;
        let y2 = y2i as u64;
        lemma_bezout_step(a as int, b as int, r0 as int, r1 as int, x0 as int, y0 as int,
            x1 as int, y1 as int);
        assert((x2 * a + y2 * b) % p() == (r0 % r1) as int % p());
        lemma_spec_egcd(r1, r0 % r1, x1, y1, x2, y2, a, b);
        assert(spec_gcd(r0 as nat, r1 as nat) == spec_gcd(r1 as nat, (r0 % r1) as nat));
    }
}

/// Extended Euclidean algorithm on (a, b): returns (g, x, y) with g the
/// gcd of a and b, and x, y reduced Bezout coefficients satisfying
/// x * a + y * b ≡ g (mod p).
pub fn egcd(a: u64, b: u64) -> (res: (u64, u64, u64))
    requires
        a <= PR,
        b <= PR,
    ensures
        (res.0, res.1, res.2) == spec_egcd(a, b, 1, 0, 0, 1),
        res.0 == spec_gcd(a as nat, b as nat),
        is_felt(res.1),
        is_felt(res.2),
        (res.1 * a + res.2 * b) % p() == res.0 as int % p(),
{
    let mut r0 = a;
    let mut r1 = b;
    let mut x0: u64 = 1;
    let mut y0: u64 = 0;
    let mut x1: u64 = 0;
    let mut y1: u64 = 1;
    while r1 != 0
        invariant
            is_felt(x0),
            is_felt(y0),
            is_felt(x1),
            is_felt(y1),
            r0 <= PR,
            r1 <= PR,
            spec_egcd(r0, r1, x0, y0, x1, y1) == spec_egcd(a, b, 1, 0, 0, 1),
        decreases r1,
    {
        let q = r0 / r1;
        let r2 = r0 % r1;
        let qm = modp(q);
        proof {
            assert(qm == (r0 / r1) as int % p());
        }
        let x2 = sub_modp(x0, mul_modp(qm, x1));
        let y2 = sub_modp(y0, mul_modp(qm, y1));
        proof {
            assert(x2 == fsub(x0 as int, fmul(qm as int, x1 as int)));
            assert(y2 == fsub(y0 as int, fmul(qm as int, y1 as int)));
        }
        r0 = r1;
        r1 = r2;
        x0 = x1;
        y0 = y1;
        x1 = x2;
        y1 = y2;
    }
    proof {
        lemma_small_mod(1nat, p() as nat);
        lemma_mod_self_0(p());
        if a < PR {
            lemma_small_mod(a as nat, p() as nat);
        }
        lemma_spec_egcd(a, b, 1, 0, 0, 1, a, b);
    }
    (r0, x0, y0)
}

/// Multiplicative inverse of a non-zero residue, by the extended
/// Euclidean algorithm over (a, p).  Whenever gcd(a, p) == 1 — which
/// holds for every a in [1, p) since p is prime — the result is the
/// unique residue whose product with a is 1; the gcd can never be
/// anything else for a prime modulus, and in that impossible case the
/// function returns 0.
pub fn inverse(a: u64) -> (r: u64)
    requires
        1 <= a,
        a < PR,
    ensures
        r == spec_inverse(a),
        is_felt(r),
        spec_gcd(a as nat, PR as nat) == 1 ==> fmul(a as int, r as int) == 1,
{
    let (g, x, _y) = egcd(a, PR);
    proof {
        if spec_gcd(a as nat, PR as nat) == 1 {
            lemma_mul_inverse(a);
        }
    }
    if g == 1 {
        x
    } else {
        0
    }
}

/// Residues below this bound are provably coprime with p, because p has
/// no divisor in [2, SMALL_FACTOR_BOUND).
pub const SMALL_FACTOR_BOUND: u64 = 1024;

/// p has no divisor between 2 and the small-factor bound.
pub proof fn lemma_no_small_factor()
    ensures
        forall|d: int| 2 <= d < SMALL_FACTOR_BOUND ==> #[trigger] (p() % d) != 0,
{
    assert(forall|d: u64|
        2 <= d < 1024 ==> #[trigger] (0x1fff_ffff_ffff_ffffu64 % d) != 0) by (bit_vector);
    assert forall|d: int| 2 <= d < SMALL_FACTOR_BOUND implies #[trigger] (p() % d) != 0 by {
        let du = d as u64;
        assert(0x1fff_ffff_ffff_ffffu64 % du != 0);
    }
}

/// The gcd of a and b divides both, and is positive when either is.
pub proof fn lemma_gcd_divides(a: nat, b: nat)
    requires
        a > 0 || b > 0,
    ensures
        spec_gcd(a, b) > 0,
        a % spec_gcd(a, b) == 0,
        b % spec_gcd(a, b) == 0,
    decreases b,
{
    let g = spec_gcd(a, b);
    if b == 0 {
        lemma_mod_self_0(a as int);
        lemma_small_mod(0nat, a);
    } else {
        lemma_gcd_divides(b, a % b);
        lemma_fundamental_div_mod(a as int, b as int);
        assert((b as int * (a as int / b as int)) % g as int == 0) by {
            lemma_mul_mod_noop_left(b as int, a as int / b as int, g as int);
            vstd::arithmetic::mul::lemma_mul_by_zero_is_zero(a as int / b as int);
            lemma_small_mod(0nat, g);
        }
        assert(a as int % g as int == 0) by {
            lemma_add_mod_noop(b as int * (a as int / b as int), a as int % b as int, g as int);
            lemma_small_mod(0nat, g);
        }
    }
}

/// A positive divisor of a positive number cannot exceed it.
proof fn lemma_divides_le(n: int, d: int)
    requires
        n > 0,
        d > 0,
        n % d == 0,
    ensures
        d <= n,
{
    if d > n {
        lemma_small_mod(n as nat, d as nat);
    }
}

/// Any common divisor of a and b divides their gcd.
pub proof fn lemma_common_divisor_divides_gcd(a: nat, b: nat, d: nat)
    requires
        d > 0,
        a % d == 0,
        b % d == 0,
    ensures
        spec_gcd(a, b) % d == 0,
    decreases b,
{
    if b == 0 {
    } else {
        lemma_fundamental_div_mod(a as int, b as int);
        assert((b as int * (a as int / b as int)) % d as int == 0) by {
            lemma_mul_mod_noop_left(b as int, a as int / b as int, d as int);
            vstd::arithmetic::mul::lemma_mul_by_zero_is_zero(a as int / b as int);
            lemma_small_mod(0nat, d);
        }
        assert((a as int % b as int) % d as int == 0) by {
            lemma_sub_mod_noop(a as int, b as int * (a as int / b as int), d as int);
            lemma_small_mod(0nat, d);
        }
        lemma_common_divisor_divides_gcd(b, (a % b) as nat, d);
    }
}

/// Every non-zero residue below the small-factor bound is coprime with p.
pub proof fn lemma_small_coprime(d: u64)
    requires
        1 <= d,
        d < SMALL_FACTOR_BOUND,
    ensures
        spec_gcd(d as nat, PR as nat) == 1,
{
    let g = spec_gcd(d as nat, PR as nat);
    lemma_gcd_divides(d as nat, PR as nat);
    if g != 1 {
        lemma_divides_le(d as int, g as int);
        lemma_no_small_factor();
        assert(p() % (g as int) != 0);
        assert(false);
    }
}

/// When m in (0, p) is coprime with p, so is its complement p - m.
pub proof fn lemma_complement_coprime(m: u64)
    requires
        0 < m,
        m < PR,
        spec_gcd(m as nat, PR as nat) == 1,
    ensures
        spec_gcd((PR - m) as nat, PR as nat) == 1,
{
    let c = (PR - m) as nat;
    let g = spec_gcd(c, PR as nat);
    lemma_gcd_divides(c, PR as nat);
    assert(m as int % g as int == 0) by {
        lemma_sub_mod_noop(PR as int, c as int, g as int);
        lemma_small_mod(0nat, g);
    }
    lemma_common_divisor_divides_gcd(m as nat, PR as nat, g);
    lemma_divides_le(1, g as int);
}

/// Small non-zero residues are invertible outright.
pub proof fn lemma_mul_inverse_small(a: u64)
    requires
        1 <= a,
        a < SMALL_FACTOR_BOUND,
    ensures
        fmul(a as int, spec_inverse(a) as int) == 1,
        is_felt(spec_inverse(a)),
{
    lemma_small_coprime(a);
    lemma_mul_inverse(a);
}

/// Multiplying a residue that is coprime with p by its inverse yields 1.
pub proof fn lemma_mul_inverse(a: u64)
    requires
        1 <= a,
        a < PR,
        spec_gcd(a as nat, PR as nat) == 1,
    ensures
        fmul(a as int, spec_inverse(a) as int) == 1,
        is_felt(spec_inverse(a)),
{
    lemma_small_mod(1nat, p() as nat);
    lemma_mod_self_0(p());
    lemma_small_mod(a as nat, p() as nat);
    lemma_spec_egcd(a, PR, 1, 0, 0, 1, a, PR);
    let (g, x, y) = spec_egcd(a, PR, 1, 0, 0, 1);
    assert(g == 1);
    assert((x * a + y * PR) % p() == 1);
    assert((y * PR) % p() == 0) by {
        lemma_mul_mod_noop_right(y as int, PR as int, p());
        vstd::arithmetic::mul::lemma_mul_by_zero_is_zero(y as int);
    }
    assert((x * a) % p() == 1) by {
        lemma_add_mod_noop(x * a, y * PR, p());
        vstd::arithmetic::div_mod::lemma_mod_twice(x * a, p());
    }
    lemma_mul_is_commutative(x as int, a as int);
}

} // verus!
