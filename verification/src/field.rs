//! Exact arithmetic modulo the 61-bit Mersenne prime p = 2^61 - 1.
//!
//! Every operation takes residues in [0, p) and returns a residue in
//! [0, p).  Reduction exploits the Mersenne identity 2^61 ≡ 1 (mod p):
//! a value below 2^122 splits at bit 61 into high and low parts whose sum
//! is congruent to the value itself, and at most one conditional
//! subtraction of p finishes the reduction.

use vstd::arithmetic::div_mod::{
    lemma_div_denominator, lemma_fundamental_div_mod, lemma_mod_add_multiples_vanish,
    lemma_mod_bound,
    lemma_mod_multiples_vanish, lemma_mod_sub_multiples_vanish, lemma_small_mod,
    lemma_sub_mod_noop,
};
use vstd::arithmetic::mul::{
    lemma_mul_basics, lemma_mul_is_distributive_add, lemma_mul_is_distributive_add_other_way,
    lemma_mul_upper_bound,
};
use vstd::prelude::*;

verus! {

/// The 61-bit Mersenne prime 2^61 - 1: the modulus of the field.
pub const PR: u64 = 0x1fff_ffff_ffff_ffff;

/// The modulus as a mathematical integer, for contracts.
pub open spec fn p() -> int {
    PR as int
}

/// A value is a field element when it is a fully reduced residue.
pub open spec fn is_felt(a: u64) -> bool {
    a < PR
}

/// Modular sum of two residues.
pub open spec fn fadd(a: int, b: int) -> int {
    (a + b) % p()
}

/// Modular difference of two residues (Euclidean remainder, so the
/// result lies in [0, p) even when a < b).
pub open spec fn fsub(a: int, b: int) -> int {
    (a - b) % p()
}

/// Modular negation of a residue.
pub open spec fn fneg(a: int) -> int {
    (0 - a) % p()
}

/// Modular product of two residues.
pub open spec fn fmul(a: int, b: int) -> int {
    (a * b) % p()
}

/// Splitting a non-negative value at bit 61 and adding the two parts
/// preserves its residue, because 2^61 ≡ 1 (mod p).
proof fn lemma_mersenne_split(a: int)
    requires
        a >= 0,
    ensures
        (a / 0x2000_0000_0000_0000 + a % 0x2000_0000_0000_0000) % p() == a % p(),
{
    let q = a / 0x2000_0000_0000_0000;
    let r = a % 0x2000_0000_0000_0000;
    lemma_fundamental_div_mod(a, 0x2000_0000_0000_0000);
    assert(a == q * 0x2000_0000_0000_0000 + r);
    assert(q * 0x2000_0000_0000_0000 == q * p() + q) by {
        lemma_mul_is_distributive_add(q, p(), 1);
        lemma_mul_basics(q);
    }
    assert(a == p() * q + (q + r)) by {
        vstd::arithmetic::mul::lemma_mul_is_commutative(q, p());
    }
    lemma_mod_multiples_vanish(q, q + r, p());
}

/// A value below 2p reduces with one conditional subtraction of p.
proof fn lemma_one_subtraction(i: int)
    requires
        0 <= i < 2 * p(),
    ensures
        i % p() == if i >= p() {
            i - p()
        } else {
            i
        },
{
    if i >= p() {
        lemma_mod_sub_multiples_vanish(i, p());
        lemma_small_mod((i - p()) as nat, p() as nat);
    } else {
        lemma_small_mod(i as nat, p() as nat);
    }
}

/// Reduce an arbitrary 64-bit value modulo p.
pub fn modp(a: u64) -> (r: u64)
    ensures
        r == a as int % p(),
        is_felt(r),
{
    let lo: u64 = a & PR;
    let hi: u64 = a >> 61;
    proof {
        assert(a & 0x1fff_ffff_ffff_ffffu64 == a % 0x2000_0000_0000_0000u64) by (bit_vector);
        assert(a >> 61u64 == a / 0x2000_0000_0000_0000u64) by (bit_vector);
        assert(a / 0x2000_0000_0000_0000u64 <= 7) by (bit_vector);
        lemma_mod_bound(a as int, 0x2000_0000_0000_0000);
        lemma_mersenne_split(a as int);
        lemma_one_subtraction(lo as int + hi as int);
    }
    let i: u64 = lo + hi;
    if i >= PR {
        i - PR
    } else {
        i
    }
}

/// Modular negation; total on residues, with neg(0) == 0.
pub fn neg_modp(a: u64) -> (r: u64)
    requires
        is_felt(a),
    ensures
        r == fneg(a as int),
        is_felt(r),
{
    proof {
        if a == 0 {
            lemma_small_mod(0, p() as nat);
        } else {
            lemma_mod_add_multiples_vanish(0 - a as int, p());
            lemma_small_mod((p() - a) as nat, p() as nat);
        }
    }
    if a == 0 {
        0
    } else {
        PR - a
    }
}

/// Modular sum of two residues.
pub fn add_modp(a: u64, b: u64) -> (r: u64)
    requires
        is_felt(a),
        is_felt(b),
    ensures
        r == fadd(a as int, b as int),
        is_felt(r),
{
    let res: u64 = a + b;
    proof {
        lemma_one_subtraction(res as int);
    }
    if res >= PR {
        res - PR
    } else {
        res
    }
}

/// Modular difference of two residues, computed without underflow by
/// adding p first whenever a < b.
pub fn sub_modp(a: u64, b: u64) -> (r: u64)
    requires
        is_felt(a),
        is_felt(b),
    ensures
        r == fsub(a as int, b as int),
        is_felt(r),
{
    if a >= b {
        proof {
            lemma_small_mod((a - b) as nat, p() as nat);
        }
        a - b
    } else {
        proof {
            lemma_mod_add_multiples_vanish(a as int - b as int, p());
            lemma_small_mod((a as int + p() - b) as nat, p() as nat);
        }
        a + (PR - b)
    }
}

/// Modular product: the 128-bit product splits at bit 61, and the sum of
/// the two parts reduces with one conditional subtraction.
pub fn mul_modp(a: u64, b: u64) -> (r: u64)
    requires
        is_felt(a),
        is_felt(b),
    ensures
        r == fmul(a as int, b as int),
        is_felt(r),
{
    proof {
        assert((a as u128) * (b as u128) < 0x1fff_ffff_ffff_ffffu128 * 0x2000_0000_0000_0000u128)
            by (nonlinear_arith)
            requires
                a < 0x1fff_ffff_ffff_ffffu64,
                b < 0x1fff_ffff_ffff_ffffu64,
        ;
    }
    let cc: u128 = (a as u128) * (b as u128);
    proof {
        assert(cc & 0x1fff_ffff_ffff_ffffu128 == cc % 0x2000_0000_0000_0000u128) by (bit_vector);
        assert(cc >> 61u128 == cc / 0x2000_0000_0000_0000u128) by (bit_vector);
        assert(cc < 0x1fff_ffff_ffff_ffffu128 * 0x2000_0000_0000_0000u128 ==> cc
            / 0x2000_0000_0000_0000u128 < 0x1fff_ffff_ffff_ffffu128) by (bit_vector);
        lemma_mod_bound(cc as int, 0x2000_0000_0000_0000);
        lemma_mersenne_split(cc as int);
    }
    let lo: u64 = (cc & (PR as u128)) as u64;
    let hi: u64 = (cc >> 61) as u64;
    proof {
        lemma_one_subtraction(hi as int + lo as int);
    }
    let res: u64 = hi + lo;
    if res >= PR {
        res - PR
    } else {
        res
    }
}

/// Exact dot product of the first n entries of two sequences, as a
/// mathematical integer.
pub open spec fn dot_prefix(s1: Seq<u64>, s2: Seq<u64>, n: int) -> int
    decreases n,
{
    if n <= 0 {
        0
    } else {
        dot_prefix(s1, s2, n - 1) + s1[n - 1] * s2[n - 1]
    }
}

/// Exact dot product of two equal-length sequences.
pub open spec fn dot(s1: Seq<u64>, s2: Seq<u64>) -> int {
    dot_prefix(s1, s2, s1.len() as int)
}

/// A value below 2^128 splits at bits 122 and 61 into three parts whose
/// sum keeps its residue, since 2^61 ≡ 1 and 2^122 ≡ 1 (mod p).
proof fn lemma_mersenne_split3(a: int)
    requires
        a >= 0,
    ensures
        (a / 0x4000000000000000000000000000000 + (a / 0x2000_0000_0000_0000)
            % 0x2000_0000_0000_0000 + a % 0x2000_0000_0000_0000) % p() == a % p(),
{
    let q = a / 0x2000_0000_0000_0000;
    let r0 = a % 0x2000_0000_0000_0000;
    lemma_mersenne_split(a);
    lemma_mersenne_split(q);
    assert(q / 0x2000_0000_0000_0000 == a / 0x4000000000000000000000000000000) by {
        lemma_div_denominator(a, 0x2000_0000_0000_0000, 0x2000_0000_0000_0000);
    }
    let h = a / 0x4000000000000000000000000000000;
    let m = q % 0x2000_0000_0000_0000;
    assert((q + r0) % p() == ((q % p()) + (r0 % p())) % p() == (a % p())) by {
        vstd::arithmetic::div_mod::lemma_add_mod_noop(q, r0, p());
    }
    assert(((h + m) % p() + r0 % p()) % p() == ((h + m) + r0) % p() == (q + r0) % p()) by {
        vstd::arithmetic::div_mod::lemma_add_mod_noop(h + m, r0, p());
    }
}

/// Dot product of two equal-length vectors of residues, reduced modulo
/// p.  Products accumulate in a 128-bit register, which is reduced
/// after every batch of 63 terms — the largest batch that cannot
/// overflow 128 bits between reductions.
pub fn inner_productp(input_left: &Vec<u64>, input_right: &Vec<u64>) -> (r: u64)
    requires
        input_left@.len() == input_right@.len(),
        forall|t: int| 0 <= t < input_left@.len() ==> is_felt(#[trigger] input_left@[t]),
        forall|t: int| 0 <= t < input_right@.len() ==> is_felt(#[trigger] input_right@[t]),
    ensures
        r == dot(input_left@, input_right@) % p(),
        is_felt(r),
{
    let len = input_left.len();
    let mut i: usize = 0;
    let mut result: u128 = 0;
    proof {
        lemma_small_mod(0nat, p() as nat);
    }
    while i < len
        invariant
            i <= len,
            len == input_left@.len(),
            len == input_right@.len(),
            forall|t: int| 0 <= t < input_left@.len() ==> is_felt(#[trigger] input_left@[t]),
            forall|t: int| 0 <= t < input_right@.len() ==> is_felt(#[trigger] input_right@[t]),
            result < PR as u128,
            result as int % p() == dot_prefix(input_left@, input_right@, i as int) % p(),
        decreases len - i,
    {
        let start = i;
        let end = if len - i > 63 {
            i + 63
        } else {
            len
        };
        let ghost base = result as int;
        let mut j = start;
        while j < end
            invariant
                start <= j <= end,
                end <= len,
                end - start <= 63,
                len == input_left@.len(),
                len == input_right@.len(),
                forall|t: int| 0 <= t < input_left@.len() ==> is_felt(#[trigger] input_left@[t]),
                forall|t: int| 0 <= t < input_right@.len() ==> is_felt(
                    #[trigger] input_right@[t],
                ),
                0 <= base < PR as int,
                result as int == base + dot_prefix(input_left@, input_right@, j as int)
                    - dot_prefix(input_left@, input_right@, start as int),
                result as int <= base + (j - start) * 0x3ffffffffffffff8000000000000004,
            decreases end - j,
        {
            let a = input_left[j];
            let b = input_right[j];
            proof {
                lemma_mul_upper_bound(
                    a as int,
                    0x1fff_ffff_ffff_fffe,
                    b as int,
                    0x1fff_ffff_ffff_fffe,
                );
                assert(0x1fff_ffff_ffff_fffe * 0x1fff_ffff_ffff_fffe
                    == 0x3ffffffffffffff8000000000000004);
                assert(dot_prefix(input_left@, input_right@, j + 1) == dot_prefix(
                    input_left@,
                    input_right@,
                    j as int,
                ) + input_left@[j as int] * input_right@[j as int]);
                assert((j + 1 - start) * 0x3ffffffffffffff8000000000000004 == (j - start)
                    * 0x3ffffffffffffff8000000000000004 + 0x3ffffffffffffff8000000000000004) by {
                    lemma_mul_is_distributive_add_other_way(
                        0x3ffffffffffffff8000000000000004,
                        j - start,
                        1,
                    );
                    lemma_mul_basics(0x3ffffffffffffff8000000000000004);
                }
            }
            let prod: u128 = (a as u128) * (b as u128);
            result = result + prod;
            j = j + 1;
        }
        proof {
            assert(result >> 122u128 == result / 0x4000000000000000000000000000000u128)
                by (bit_vector);
            assert(result >> 122u128 <= 0x3fu128) by (bit_vector);
            assert((result >> 61u128) & 0x1fff_ffff_ffff_ffffu128 == (result
                / 0x2000_0000_0000_0000u128) % 0x2000_0000_0000_0000u128) by (bit_vector);
            assert(result & 0x1fff_ffff_ffff_ffffu128 == result % 0x2000_0000_0000_0000u128)
                by (bit_vector);
            lemma_mod_bound(result as int / 0x2000_0000_0000_0000, 0x2000_0000_0000_0000);
            lemma_mod_bound(result as int, 0x2000_0000_0000_0000);
            lemma_mersenne_split3(result as int);
        }
        let higher: u64 = (result >> 122) as u64;
        let middle: u64 = ((result >> 61) & (PR as u128)) as u64;
        let lower: u64 = (result & (PR as u128)) as u64;
        let reduced: u64 = modp(higher + middle + lower);
        proof {
            let lseq = input_left@;
            let rseq = input_right@;
            let d = dot_prefix(lseq, rseq, end as int) - dot_prefix(lseq, rseq, start as int);
            assert((base + d) % p() == dot_prefix(lseq, rseq, end as int) % p()) by {
                vstd::arithmetic::div_mod::lemma_add_mod_noop(base, d, p());
                vstd::arithmetic::div_mod::lemma_add_mod_noop(
                    dot_prefix(lseq, rseq, start as int),
                    d,
                    p(),
                );
                lemma_small_mod(base as nat, p() as nat);
            }
        }
        result = reduced as u128;
        i = end;
    }
    result as u64
}

#[verifier::external_type_specification]
#[verifier::external_body]
pub struct ExThreadRng(rand::rngs::ThreadRng);

/// Relies on rand's Rng::gen_range over the range 0..p: a uniformly
/// random value in [0, p).
#[verifier::external_body]
pub fn rand_modp(rng: &mut rand::rngs::ThreadRng) -> (r: u64)
    ensures
        is_felt(r),
{
    rand::Rng::gen_range(rng, 0..PR)
}

/// Adding then subtracting one operand recovers the other, over residues.
pub proof fn lemma_add_sub_cancel(a: u64, b: u64)
    requires
        is_felt(a),
        is_felt(b),
    ensures
        fsub(fadd(a as int, b as int), b as int) == a as int,
        fsub(fadd(a as int, b as int), a as int) == b as int,
{
    lemma_small_mod(a as nat, p() as nat);
    lemma_small_mod(b as nat, p() as nat);
    lemma_sub_mod_noop(a as int + b as int, b as int, p());
    lemma_sub_mod_noop(a as int + b as int, a as int, p());
}

} // verus!
