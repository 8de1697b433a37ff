//! Dense polynomials over the Mersenne-61 field.
//!
//! A polynomial is an ordered vector of residues, coefficient i
//! multiplying x^i.  The canonical form has a non-zero trailing
//! coefficient, or is empty (the zero polynomial); construction always
//! canonicalizes by trimming trailing zeros, and the degree of the zero
//! polynomial is defined as 0.

use crate::field::{add_modp, fadd, fmul, fsub, is_felt, mul_modp, p, rand_modp, sub_modp};
use vstd::arithmetic::div_mod::{lemma_add_mod_noop, lemma_small_mod};
use vstd::calc;
use vstd::prelude::*;

verus! {

/// All entries of a coefficient sequence are reduced residues.
pub open spec fn all_felts(s: Seq<u64>) -> bool {
    forall|i: int| 0 <= i < s.len() ==> is_felt(#[trigger] s[i])
}

/// Canonical form: empty, or a non-zero trailing coefficient.
pub open spec fn is_canonical(s: Seq<u64>) -> bool {
    s.len() == 0 || s[s.len() - 1] != 0
}

/// A well-formed coefficient sequence: reduced and canonical.
pub open spec fn poly_wf(s: Seq<u64>) -> bool {
    all_felts(s) && is_canonical(s)
}

/// Coefficient i of a sequence, with zeros beyond its length.
pub open spec fn coeff_or_zero(s: Seq<u64>, i: int) -> u64 {
    if 0 <= i < s.len() {
        s[i]
    } else {
        0
    }
}

/// The sequence with its trailing zero coefficients removed.
pub open spec fn spec_trim(s: Seq<u64>) -> Seq<u64>
    decreases s.len(),
{
    if s.len() == 0 {
        s
    } else if s[s.len() - 1] != 0 {
        s
    } else {
        spec_trim(s.drop_last())
    }
}

/// A sequence denotes the zero polynomial when it is empty or all its
/// coefficients are zero.
pub open spec fn spec_is_zero(s: Seq<u64>) -> bool {
    forall|i: int| 0 <= i < s.len() ==> s[i] == 0
}

/// Horner evaluation of a coefficient sequence at a point, reduced
/// modulo p; the empty sequence evaluates to 0.
pub open spec fn poly_eval(s: Seq<u64>, x: int) -> int
    decreases s.len(),
{
    if s.len() == 0 {
        0
    } else {
        (s[0] + x * poly_eval(s.drop_first(), x)) % p()
    }
}

/// Trimming is a prefix of the input, canonical, with only zeros
/// dropped; it keeps reduced entries reduced.
pub proof fn lemma_trim_props(s: Seq<u64>)
    ensures
        spec_trim(s).len() <= s.len(),
        spec_trim(s) == s.subrange(0, spec_trim(s).len() as int),
        is_canonical(spec_trim(s)),
        forall|i: int| spec_trim(s).len() <= i < s.len() ==> s[i] == 0,
        all_felts(s) ==> all_felts(spec_trim(s)),
    decreases s.len(),
{
    if s.len() == 0 {
        assert(spec_trim(s) =~= s.subrange(0, 0));
    } else if s[s.len() - 1] != 0 {
        assert(spec_trim(s) =~= s.subrange(0, s.len() as int));
    } else {
        let t = s.drop_last();
        lemma_trim_props(t);
        assert(spec_trim(s) == spec_trim(t));
        assert(t.subrange(0, spec_trim(t).len() as int) =~= s.subrange(
            0,
            spec_trim(s).len() as int,
        ));
        assert forall|i: int| spec_trim(s).len() <= i < s.len() implies s[i] == 0 by {
            if i < s.len() - 1 {
                assert(s[i] == t[i]);
            }
        }
    }
}

/// A canonical sequence trims to itself.
pub proof fn lemma_trim_canonical_id(s: Seq<u64>)
    requires
        is_canonical(s),
    ensures
        spec_trim(s) == s,
{
}

/// An all-zero sequence trims to the empty sequence.
pub proof fn lemma_trim_zero(s: Seq<u64>)
    requires
        spec_is_zero(s),
    ensures
        spec_trim(s) == Seq::<u64>::empty(),
    decreases s.len(),
{
    if s.len() == 0 {
        assert(spec_trim(s) =~= Seq::<u64>::empty());
    } else {
        lemma_trim_zero(s.drop_last());
    }
}


/// Elementwise modular sum, zero-padded to the longer operand, before
/// canonicalization.
pub open spec fn padd_raw(s1: Seq<u64>, s2: Seq<u64>) -> Seq<u64> {
    Seq::new(
        if s1.len() > s2.len() {
            s1.len()
        } else {
            s2.len()
        },
        |i: int| fadd(coeff_or_zero(s1, i) as int, coeff_or_zero(s2, i) as int) as u64,
    )
}

/// The canonical modular sum of two coefficient sequences.
pub open spec fn spec_padd(s1: Seq<u64>, s2: Seq<u64>) -> Seq<u64> {
    spec_trim(padd_raw(s1, s2))
}

/// Elementwise modular difference, zero-padded to the longer operand,
/// before canonicalization.
pub open spec fn psub_raw(s1: Seq<u64>, s2: Seq<u64>) -> Seq<u64> {
    Seq::new(
        if s1.len() > s2.len() {
            s1.len()
        } else {
            s2.len()
        },
        |i: int| fsub(coeff_or_zero(s1, i) as int, coeff_or_zero(s2, i) as int) as u64,
    )
}

/// The canonical modular difference of two coefficient sequences.
pub open spec fn spec_psub(s1: Seq<u64>, s2: Seq<u64>) -> Seq<u64> {
    spec_trim(psub_raw(s1, s2))
}

/// Term i of convolution entry k: the product s1[i] * s2[k - i] when
/// both indices are in range, and 0 otherwise.
pub open spec fn conv_term(s1: Seq<u64>, s2: Seq<u64>, k: int, i: int) -> int {
    if 0 <= i < s1.len() && 0 <= k - i < s2.len() {
        s1[i] * s2[k - i]
    } else {
        0
    }
}

/// The sum of the first n terms of convolution entry k.
pub open spec fn conv_partial(s1: Seq<u64>, s2: Seq<u64>, k: int, n: int) -> int
    decreases n,
{
    if n <= 0 {
        0
    } else {
        conv_partial(s1, s2, k, n - 1) + conv_term(s1, s2, k, n - 1)
    }
}

/// The full convolution of two non-empty coefficient sequences, each
/// entry reduced modulo p.
pub open spec fn conv_raw(s1: Seq<u64>, s2: Seq<u64>) -> Seq<u64> {
    Seq::new(
        (s1.len() + s2.len() - 1) as nat,
        |k: int| (conv_partial(s1, s2, k, s1.len() as int) % p()) as u64,
    )
}

/// The canonical product of two coefficient sequences.
pub open spec fn spec_pmul(s1: Seq<u64>, s2: Seq<u64>) -> Seq<u64> {
    if s1.len() == 0 || s2.len() == 0 {
        Seq::empty()
    } else {
        spec_trim(conv_raw(s1, s2))
    }
}

/// The canonical scalar multiple of a coefficient sequence.
pub open spec fn spec_cmul(s: Seq<u64>, c: u64) -> Seq<u64> {
    spec_trim(Seq::new(s.len(), |i: int| fmul(s[i] as int, c as int) as u64))
}

/// A dense polynomial: the coefficient of x^i is stored at index i.
pub struct Poly {
    pub coeffs: Vec<u64>,
}

impl View for Poly {
    type V = Seq<u64>;

    open spec fn view(&self) -> Seq<u64> {
        self.coeffs@
    }
}

impl Poly {
    /// The canonical zero polynomial.
    pub fn zero() -> (r: Self)
        ensures
            r@ == Seq::<u64>::empty(),
            poly_wf(r@),
    {
        Self { coeffs: Vec::new() }
    }

    /// The constant polynomial 1.
    pub fn one() -> (r: Self)
        ensures
            r@ == seq![1u64],
            poly_wf(r@),
    {
        let mut coeffs: Vec<u64> = Vec::new();
        coeffs.push(1);
        proof {
            assert(coeffs@ =~= seq![1u64]);
        }
        Self { coeffs }
    }

    /// Whether this polynomial is zero (empty or all-zero coefficients).
    pub fn is_zero(&self) -> (r: bool)
        ensures
            r == spec_is_zero(self@),
    {
        let mut i: usize = 0;
        while i < self.coeffs.len()
            invariant
                i <= self@.len(),
                forall|t: int| 0 <= t < i ==> self@[t] == 0,
            decreases self@.len() - i,
        {
            if self.coeffs[i] != 0 {
                return false;
            }
            i = i + 1;
        }
        true
    }

    /// The degree, with the zero polynomial's degree defined as 0.
    pub fn degree(&self) -> (r: usize)
        requires
            poly_wf(self@),
        ensures
            r == if self@.len() <= 1 {
                0int
            } else {
                self@.len() - 1
            },
    {
        if self.is_zero() {
            0
        } else {
            self.coeffs.len() - 1
        }
    }

    /// The coefficients as a slice.
    pub fn coeffs(&self) -> (r: &[u64])
        ensures
            r@ == self@,
    {
        self.coeffs.as_slice()
    }

    /// Coefficient i, with zeros beyond the stored length.
    pub fn coeff(&self, i: usize) -> (r: u64)
        ensures
            r == coeff_or_zero(self@, i as int),
    {
        if i < self.coeffs.len() {
            self.coeffs[i]
        } else {
            0
        }
    }

    /// Remove trailing zero coefficients in place.
    fn truncate_leading_zeros(&mut self)
        requires
            all_felts(old(self)@),
        ensures
            final(self)@ == spec_trim(old(self)@),
            poly_wf(final(self)@),
    {
        while self.coeffs.len() > 0 && self.coeffs[self.coeffs.len() - 1] == 0
            invariant
                all_felts(self@),
                spec_trim(self@) == spec_trim(old(self)@),
            decreases self@.len(),
        {
            self.coeffs.pop();
        }
        proof {
            lemma_trim_canonical_id(self@);
            lemma_trim_props(old(self)@);
        }
    }

    /// Build a polynomial from a coefficient vector, canonicalizing by
    /// trimming trailing zeros.
    pub fn from_coefficients_vec(coeffs: Vec<u64>) -> (r: Self)
        requires
            all_felts(coeffs@),
        ensures
            r@ == spec_trim(coeffs@),
            poly_wf(r@),
    {
        let mut result = Self { coeffs };
        result.truncate_leading_zeros();
        result
    }

    /// Build a polynomial from a coefficient slice, canonicalizing.
    pub fn from_coefficients_slice(coeffs: &[u64]) -> (r: Self)
        requires
            all_felts(coeffs@),
        ensures
            r@ == spec_trim(coeffs@),
            poly_wf(r@),
    {
        let mut v: Vec<u64> = Vec::new();
        let mut i: usize = 0;
        while i < coeffs.len()
            invariant
                i <= coeffs@.len(),
                v@ == coeffs@.subrange(0, i as int),
                all_felts(coeffs@),
            decreases coeffs@.len() - i,
        {
            v.push(coeffs[i]);
            proof {
                assert(v@ =~= coeffs@.subrange(0, i + 1));
            }
            i = i + 1;
        }
        proof {
            assert(v@ =~= coeffs@);
        }
        Self::from_coefficients_vec(v)
    }

    /// A polynomial of degree at most d with uniformly random
    /// coefficients, canonicalized.
    pub fn rand(d: usize, rng: &mut rand::rngs::ThreadRng) -> (r: Self)
        requires
            d < usize::MAX,
        ensures
            poly_wf(r@),
            r@.len() <= d + 1,
    {
        let mut random_coeffs: Vec<u64> = Vec::new();
        let mut i: usize = 0;
        while i < d + 1
            invariant
                d < usize::MAX,
                i <= d + 1,
                random_coeffs@.len() == i,
                all_felts(random_coeffs@),
            decreases d + 1 - i,
        {
            random_coeffs.push(rand_modp(rng));
            i = i + 1;
        }
        let ghost rc = random_coeffs@;
        let r = Self::from_coefficients_vec(random_coeffs);
        proof {
            lemma_trim_props(rc);
        }
        r
    }

    /// Horner evaluation at a point; evaluation at 0 reads the constant
    /// term directly.
    pub fn evaluate(&self, point: u64) -> (r: u64)
        requires
            poly_wf(self@),
            is_felt(point),
        ensures
            r == poly_eval(self@, point as int),
            is_felt(r),
    {
        if self.is_zero() {
            proof {
                if self@.len() > 0 {
                    assert(self@[self@.len() - 1] == 0);
                }
            }
            return 0;
        }
        if point == 0 {
            proof {
                vstd::arithmetic::div_mod::lemma_small_mod(self@[0] as nat, p() as nat);
            }
            return self.coeffs[0];
        }
        let len = self.coeffs.len();
        let mut result: u64 = 0;
        let mut i = len;
        while i > 0
            invariant
                i <= len,
                len == self@.len(),
                poly_wf(self@),
                is_felt(point),
                is_felt(result),
                result == poly_eval(self@.subrange(i as int, len as int), point as int),
            decreases i,
        {
            i = i - 1;
            let c = self.coeffs[i];
            proof {
                let tail = self@.subrange(i + 1, len as int);
                let cur = self@.subrange(i as int, len as int);
                assert(cur.drop_first() =~= tail);
                assert(cur[0] == self@[i as int]);
                lemma_horner_step(c, point, poly_eval(tail, point as int));
            }
            result = add_modp(mul_modp(result, point), c);
        }
        proof {
            assert(self@.subrange(0, len as int) =~= self@);
        }
        result
    }

    /// Elementwise modular sum with another polynomial, canonicalized.
    pub fn add(&self, other: &Self) -> (r: Self)
        requires
            poly_wf(self@),
            poly_wf(other@),
        ensures
            r@ == spec_padd(self@, other@),
            poly_wf(r@),
    {
        let len1 = self.coeffs.len();
        let len2 = other.coeffs.len();
        let n = if len1 > len2 {
            len1
        } else {
            len2
        };
        let mut result: Vec<u64> = Vec::new();
        let mut i: usize = 0;
        while i < n
            invariant
                i <= n,
                len1 == self@.len(),
                len2 == other@.len(),
                n == padd_raw(self@, other@).len(),
                poly_wf(self@),
                poly_wf(other@),
                result@.len() == i,
                forall|t: int| 0 <= t < i ==> result@[t] == padd_raw(self@, other@)[t],
                all_felts(result@),
            decreases n - i,
        {
            let a = if i < len1 {
                self.coeffs[i]
            } else {
                0
            };
            let b = if i < len2 {
                other.coeffs[i]
            } else {
                0
            };
            result.push(add_modp(a, b));
            i = i + 1;
        }
        proof {
            assert(result@ =~= padd_raw(self@, other@));
        }
        Self::from_coefficients_vec(result)
    }

    /// Elementwise modular difference with another polynomial,
    /// canonicalized; higher-degree coefficients of a longer right
    /// operand enter negated.
    pub fn sub(&self, other: &Self) -> (r: Self)
        requires
            poly_wf(self@),
            poly_wf(other@),
        ensures
            r@ == spec_psub(self@, other@),
            poly_wf(r@),
    {
        let len1 = self.coeffs.len();
        let len2 = other.coeffs.len();
        let n = if len1 > len2 {
            len1
        } else {
            len2
        };
        let mut result: Vec<u64> = Vec::new();
        let mut i: usize = 0;
        while i < n
            invariant
                i <= n,
                len1 == self@.len(),
                len2 == other@.len(),
                n == psub_raw(self@, other@).len(),
                poly_wf(self@),
                poly_wf(other@),
                result@.len() == i,
                forall|t: int| 0 <= t < i ==> result@[t] == psub_raw(self@, other@)[t],
                all_felts(result@),
            decreases n - i,
        {
            let a = if i < len1 {
                self.coeffs[i]
            } else {
                0
            };
            let b = if i < len2 {
                other.coeffs[i]
            } else {
                0
            };
            result.push(sub_modp(a, b));
            i = i + 1;
        }
        proof {
            assert(result@ =~= psub_raw(self@, other@));
        }
        Self::from_coefficients_vec(result)
    }

    /// Scalar multiple of every coefficient, canonicalized (zero when
    /// the scalar is zero).
    pub fn cmul(&self, c: u64) -> (r: Self)
        requires
            poly_wf(self@),
            is_felt(c),
        ensures
            r@ == spec_cmul(self@, c),
            poly_wf(r@),
    {
        let len = self.coeffs.len();
        let mut result: Vec<u64> = Vec::new();
        let mut i: usize = 0;
        while i < len
            invariant
                i <= len,
                len == self@.len(),
                poly_wf(self@),
                is_felt(c),
                result@.len() == i,
                forall|t: int|
                    0 <= t < i ==> result@[t] == fmul(self@[t] as int, c as int) as u64,
                all_felts(result@),
            decreases len - i,
        {
            result.push(mul_modp(self.coeffs[i], c));
            i = i + 1;
        }
        proof {
            assert(result@ =~= Seq::new(
                self@.len(),
                |t: int| fmul(self@[t] as int, c as int) as u64,
            ));
        }
        Self::from_coefficients_vec(result)
    }

    /// Full convolution product with another polynomial, canonicalized.
    pub fn mul(&self, other: &Self) -> (r: Self)
        requires
            poly_wf(self@),
            poly_wf(other@),
            self@.len() + other@.len() <= usize::MAX,
        ensures
            r@ == spec_pmul(self@, other@),
            poly_wf(r@),
    {
        if self.coeffs.len() == 0 || other.coeffs.len() == 0 {
            return Self::zero();
        }
        let len1 = self.coeffs.len();
        let len2 = other.coeffs.len();
        let n = len1 + len2 - 1;
        let ghost s1 = self@;
        let ghost s2 = other@;
        let mut result: Vec<u64> = Vec::new();
        let mut i: usize = 0;
        while i < n
            invariant
                i <= n,
                result@.len() == i,
                forall|t: int| 0 <= t < i ==> result@[t] == 0,
            decreases n - i,
        {
            result.push(0);
            i = i + 1;
        }
        proof {
            lemma_small_mod(0nat, p() as nat);
        }
        let mut i: usize = 0;
        while i < len1
            invariant
                i <= len1,
                len1 == s1.len(),
                len2 == s2.len(),
                n == len1 + len2 - 1,
                s1 == self@,
                s2 == other@,
                poly_wf(s1),
                poly_wf(s2),
                result@.len() == n,
                all_felts(result@),
                forall|k: int|
                    0 <= k < n ==> result@[k] == (conv_partial(s1, s2, k, i as int) % p()) as u64,
            decreases len1 - i,
        {
            let mut j: usize = 0;
            while j < len2
                invariant
                    j <= len2,
                    i < len1,
                    len1 == s1.len(),
                    len2 == s2.len(),
                    n == len1 + len2 - 1,
                    s1 == self@,
                    s2 == other@,
                    poly_wf(s1),
                    poly_wf(s2),
                    result@.len() == n,
                    all_felts(result@),
                    forall|k: int|
                        0 <= k < n ==> result@[k] == ((conv_partial(s1, s2, k, i as int) + (
                        if i <= k < i + j {
                            s1[i as int] * s2[k - i]
                        } else {
                            0
                        })) % p()) as u64,
                decreases len2 - j,
            {
                let k = i + j;
                let ghost before = result@[k as int] as int;
                let ghost partial = conv_partial(s1, s2, k as int, i as int);
                let updated = add_modp(result[k], mul_modp(self.coeffs[i], other.coeffs[j]));
                proof {
                    let term = s1[i as int] * s2[j as int];
                    assert(before == partial % p());
                    assert((partial % p() + term % p()) % p() == (partial + term) % p()) by {
                        lemma_add_mod_noop(partial, term, p());
                    }
                }
                result[k] = updated;
                proof {
                    assert forall|kk: int|
                        0 <= kk < n implies result@[kk] == ((conv_partial(s1, s2, kk, i as int)
                        + (
                    if i <= kk < i + j + 1 {
                        s1[i as int] * s2[kk - i]
                    } else {
                        0
                    })) % p()) as u64 by {
                        if kk != k {
                            assert(result@[kk] == old_entry_frame(s1, s2, kk, i as int, j as int));
                        }
                    }
                }
                j = j + 1;
            }
            proof {
                assert forall|k: int|
                    0 <= k < n implies result@[k] == ((conv_partial(
                    s1,
                    s2,
                    k,
                    i + 1,
                )) % p()) as u64 by {
                    assert(conv_partial(s1, s2, k, i + 1) == conv_partial(s1, s2, k, i as int)
                        + conv_term(s1, s2, k, i as int));
                }
            }
            i = i + 1;
        }
        proof {
            assert(result@ =~= conv_raw(s1, s2));
        }
        Self::from_coefficients_vec(result)
    }
}

/// The value an accumulator entry holds after the first j inner terms
/// of outer round i have been folded in.
pub open spec fn old_entry_frame(s1: Seq<u64>, s2: Seq<u64>, k: int, i: int, j: int) -> u64 {
    ((conv_partial(s1, s2, k, i) + (
    if i <= k < i + j {
        s1[i] * s2[k - i]
    } else {
        0
    })) % p()) as u64
}

/// One Horner step: multiplying the reduced tail value and adding the
/// next coefficient, all modulo p, agrees with the defining recurrence.
proof fn lemma_horner_step(c: u64, x: u64, e: int)
    requires
        is_felt(c),
        0 <= e < p(),
    ensures
        fadd(fmul(e, x as int), c as int) == (c + x * e) % p(),
{
    vstd::arithmetic::div_mod::lemma_add_mod_noop(e * x, c as int, p());
    vstd::arithmetic::div_mod::lemma_small_mod(c as nat, p() as nat);
    vstd::arithmetic::div_mod::lemma_mod_twice(e * x, p());
    vstd::arithmetic::mul::lemma_mul_is_commutative(e, x as int);
}

/// Evaluation lies in [0, p).
pub proof fn lemma_eval_bound(s: Seq<u64>, x: int)
    ensures
        0 <= poly_eval(s, x) < p(),
{
    if s.len() == 0 {
    } else {
        vstd::arithmetic::div_mod::lemma_mod_bound(
            s[0] + x * poly_eval(s.drop_first(), x),
            p(),
        );
    }
}

/// Appending a zero coefficient does not change evaluation.
pub proof fn lemma_eval_push_zero(s: Seq<u64>, x: int)
    ensures
        poly_eval(s.push(0), x) == poly_eval(s, x),
    decreases s.len(),
{
    let e = s.push(0);
    if s.len() == 0 {
        assert(e[0] == 0);
        assert(e.drop_first() =~= Seq::<u64>::empty());
        assert(poly_eval(e.drop_first(), x) == 0);
        assert(poly_eval(e, x) == (0 + x * 0) % p());
        assert(x * 0 == 0) by {
            vstd::arithmetic::mul::lemma_mul_by_zero_is_zero(x);
        }
        lemma_small_mod(0nat, p() as nat);
        assert(poly_eval(s, x) == 0);
    } else {
        assert(e[0] == s[0]);
        assert(e.drop_first() =~= s.drop_first().push(0));
        lemma_eval_push_zero(s.drop_first(), x);
        assert(poly_eval(e.drop_first(), x) == poly_eval(s.drop_first(), x));
        assert(poly_eval(e, x) == (s[0] + x * poly_eval(s.drop_first(), x)) % p());
    }
}

/// Canonicalization does not change evaluation.
pub proof fn lemma_eval_trim(s: Seq<u64>, x: int)
    ensures
        poly_eval(spec_trim(s), x) == poly_eval(s, x),
    decreases s.len(),
{
    if s.len() == 0 {
    } else if s[s.len() - 1] != 0 {
    } else {
        assert(s =~= s.drop_last().push(0));
        lemma_eval_push_zero(s.drop_last(), x);
        lemma_eval_trim(s.drop_last(), x);
    }
}

/// Zero-padding a sequence up to any width does not change evaluation.
pub proof fn lemma_eval_pad(s: Seq<u64>, w: int, x: int)
    requires
        w >= s.len(),
    ensures
        poly_eval(Seq::new(w as nat, |j: int| coeff_or_zero(s, j)), x) == poly_eval(s, x),
    decreases w - s.len(),
{
    let padded = Seq::new(w as nat, |j: int| coeff_or_zero(s, j));
    if w == s.len() {
        assert(padded =~= s);
    } else {
        let shorter = Seq::new((w - 1) as nat, |j: int| coeff_or_zero(s, j));
        assert(padded =~= shorter.push(0));
        lemma_eval_push_zero(shorter, x);
        lemma_eval_pad(s, w - 1, x);
    }
}

/// Evaluation distributes over the zero-padded elementwise sum.
pub proof fn lemma_eval_padd_raw(s1: Seq<u64>, s2: Seq<u64>, x: int)
    ensures
        poly_eval(padd_raw(s1, s2), x) == fadd(poly_eval(s1, x), poly_eval(s2, x)),
    decreases s1.len() + s2.len(),
{
    let r = padd_raw(s1, s2);
    if s1.len() == 0 && s2.len() == 0 {
        assert(r.len() == 0);
        lemma_small_mod(0nat, p() as nat);
    } else {
        let t1 = if s1.len() == 0 {
            s1
        } else {
            s1.drop_first()
        };
        let t2 = if s2.len() == 0 {
            s2
        } else {
            s2.drop_first()
        };
        assert(r.drop_first() =~= padd_raw(t1, t2)) by {
            assert forall|j: int| 0 <= j < r.len() - 1 implies r.drop_first()[j] == padd_raw(
                t1,
                t2,
            )[j] by {
                assert(r.drop_first()[j] == r[j + 1]);
                assert(coeff_or_zero(s1, j + 1) == coeff_or_zero(t1, j));
                assert(coeff_or_zero(s2, j + 1) == coeff_or_zero(t2, j));
            }
        }
        lemma_eval_padd_raw(t1, t2, x);
        let h1 = coeff_or_zero(s1, 0) as int;
        let h2 = coeff_or_zero(s2, 0) as int;
        let e1 = poly_eval(t1, x);
        let e2 = poly_eval(t2, x);
        lemma_eval_bound(t1, x);
        lemma_eval_bound(t2, x);
        assert(r[0] == fadd(h1, h2) as u64);
        assert(poly_eval(r, x) == ((h1 + h2) % p() + x * ((e1 + e2) % p())) % p());
        assert(poly_eval(s1, x) == (h1 + x * e1) % p()) by {
            if s1.len() == 0 {
                lemma_small_mod(0nat, p() as nat);
            }
        }
        assert(poly_eval(s2, x) == (h2 + x * e2) % p()) by {
            if s2.len() == 0 {
                lemma_small_mod(0nat, p() as nat);
            }
        }
        assert(((h1 + h2) % p() + x * ((e1 + e2) % p())) % p() == ((h1 + x * e1) % p() + (h2 + x
            * e2) % p()) % p()) by {
            lemma_mod_sum_split(h1, h2, e1, e2, x);
        }
    }
}

/// Splitting a Horner step over a sum of heads and tails.
proof fn lemma_mod_sum_split(h1: int, h2: int, e1: int, e2: int, x: int)
    ensures
        ((h1 + h2) % p() + x * ((e1 + e2) % p())) % p() == ((h1 + x * e1) % p() + (h2 + x * e2)
            % p()) % p(),
{
    let q = p();
    assert((x * ((e1 + e2) % q)) % q == (x * (e1 + e2)) % q) by {
        vstd::arithmetic::div_mod::lemma_mul_mod_noop_right(x, e1 + e2, q);
    }
    assert(x * (e1 + e2) == x * e1 + x * e2) by {
        vstd::arithmetic::mul::lemma_mul_is_distributive_add(x, e1, e2);
    }
    calc! {
        (==)
        ((h1 + h2) % q + x * ((e1 + e2) % q)) % q; {
            vstd::arithmetic::div_mod::lemma_add_mod_noop_right(
                (h1 + h2) % q,
                x * ((e1 + e2) % q),
                q,
            );
        }
        ((h1 + h2) % q + (x * ((e1 + e2) % q)) % q) % q; {}
        ((h1 + h2) % q + (x * e1 + x * e2) % q) % q; {
            vstd::arithmetic::div_mod::lemma_add_mod_noop((h1 + h2), (x * e1 + x * e2), q);
        }
        ((h1 + h2) + (x * e1 + x * e2)) % q; {}
        ((h1 + x * e1) + (h2 + x * e2)) % q; {
            vstd::arithmetic::div_mod::lemma_add_mod_noop((h1 + x * e1), (h2 + x * e2), q);
        }
        ((h1 + x * e1) % q + (h2 + x * e2) % q) % q;
    }
}

/// Evaluation of an elementwise scalar multiple is the scalar times
/// the evaluation.
pub proof fn lemma_eval_scale(s: Seq<u64>, c: u64, x: int)
    ensures
        poly_eval(Seq::new(s.len(), |i: int| fmul(s[i] as int, c as int) as u64), x) == fmul(
            poly_eval(s, x),
            c as int,
        ),
    decreases s.len(),
{
    let q = p();
    let scaled = Seq::new(s.len(), |i: int| fmul(s[i] as int, c as int) as u64);
    if s.len() == 0 {
        lemma_small_mod(0nat, q as nat);
    } else {
        let t = s.drop_first();
        assert(scaled.drop_first() =~= Seq::new(t.len(), |i: int| fmul(t[i] as int, c as int) as u64));
        lemma_eval_scale(t, c, x);
        let e = poly_eval(t, x);
        lemma_eval_bound(t, x);
        let h = s[0] as int;
        assert(poly_eval(scaled, x) == ((h * c) % q + x * ((e * c) % q)) % q);
        assert(((h * c) % q + x * ((e * c) % q)) % q == ((h + x * e) % q * c) % q) by {
            lemma_scale_horner(h, e, c as int, x);
        }
    }
}

/// Scaling commutes with one Horner step.
proof fn lemma_scale_horner(h: int, e: int, c: int, x: int)
    ensures
        ((h * c) % p() + x * ((e * c) % p())) % p() == ((h + x * e) % p() * c) % p(),
{
    let q = p();
    calc! {
        (==)
        ((h * c) % q + x * ((e * c) % q)) % q; {
            vstd::arithmetic::div_mod::lemma_add_mod_noop_right(
                (h * c) % q,
                x * ((e * c) % q),
                q,
            );
            vstd::arithmetic::div_mod::lemma_mul_mod_noop_right(x, e * c, q);
            vstd::arithmetic::div_mod::lemma_add_mod_noop_right((h * c) % q, (x * (e * c)) % q, q);
        }
        ((h * c) % q + x * (e * c)) % q; {
            vstd::arithmetic::div_mod::lemma_add_mod_noop((h * c), (x * (e * c)), q);
        }
        ((h * c) + x * (e * c)) % q; {
            vstd::arithmetic::mul::lemma_mul_is_associative(x, e, c);
            vstd::arithmetic::mul::lemma_mul_is_distributive_add_other_way(c, h, x * e);
            vstd::arithmetic::mul::lemma_mul_is_associative(x, e, c);
        }
        ((h + x * e) * c) % q; {
            vstd::arithmetic::div_mod::lemma_mul_mod_noop_left(h + x * e, c, q);
        }
        ((h + x * e) % q * c) % q;
    }
}

/// The convolution of a non-empty sequence decomposes into the scaled
/// second operand plus the shifted convolution of the tail.
proof fn lemma_conv_raw_decompose(a: Seq<u64>, b: Seq<u64>, x: int)
    requires
        a.len() >= 1,
        b.len() >= 1,
    ensures
        conv_raw(a, b) == padd_raw(
            Seq::new(b.len(), |i: int| fmul(b[i] as int, a[0] as int) as u64),
            seq![0u64] + (if a.len() == 1 {
                Seq::empty()
            } else {
                conv_raw(a.drop_first(), b)
            }),
        ),
{
    let scaled = Seq::new(b.len(), |i: int| fmul(b[i] as int, a[0] as int) as u64);
    let tailconv = if a.len() == 1 {
        Seq::<u64>::empty()
    } else {
        conv_raw(a.drop_first(), b)
    };
    let shifted = seq![0u64] + tailconv;
    let rhs = padd_raw(scaled, shifted);
    assert(conv_raw(a, b).len() == a.len() + b.len() - 1);
    assert(shifted.len() == a.len() + b.len() - 1 || a.len() == 1);
    assert(rhs.len() == a.len() + b.len() - 1);
    assert forall|k: int| 0 <= k < a.len() + b.len() - 1 implies conv_raw(a, b)[k] == rhs[k] by {
        lemma_conv_partial_decompose(a, b, k, a.len() as int);
        let u = if 0 <= k < b.len() {
            a[0] * b[k]
        } else {
            0
        };
        let v = if a.len() > 1 && 1 <= k {
            conv_partial(a.drop_first(), b, k - 1, a.len() - 1)
        } else {
            0
        };
        assert(conv_partial(a, b, k, a.len() as int) == u + v);
        assert(coeff_or_zero(scaled, k) as int == u % p()) by {
            if 0 <= k < b.len() {
                vstd::arithmetic::mul::lemma_mul_is_commutative(a[0] as int, b[k] as int);
            } else {
                lemma_small_mod(0nat, p() as nat);
            }
        }
        assert(coeff_or_zero(shifted, k) as int == v % p()) by {
            if a.len() > 1 && 1 <= k && k - 1 < tailconv.len() {
                assert(shifted[k] == tailconv[k - 1]);
            } else {
                lemma_small_mod(0nat, p() as nat);
            }
        }
        vstd::arithmetic::div_mod::lemma_add_mod_noop(u, v, p());
    }
    assert(conv_raw(a, b) =~= rhs);
}

/// The first n terms of convolution entry k split off the head term.
proof fn lemma_conv_partial_decompose(a: Seq<u64>, b: Seq<u64>, k: int, n: int)
    requires
        a.len() >= 1,
        0 <= n <= a.len(),
    ensures
        conv_partial(a, b, k, n) == (
        if 0 <= k < b.len() && n >= 1 {
            a[0] * b[k]
        } else {
            0
        }) + (
        if n >= 2 && 1 <= k {
            conv_partial(a.drop_first(), b, k - 1, n - 1)
        } else {
            0
        }),
    decreases n,
{
    if n <= 0 {
    } else if n == 1 {
        assert(conv_partial(a, b, k, 1) == conv_partial(a, b, k, 0) + conv_term(a, b, k, 0));
        assert(conv_term(a, b, k, 0) == (
        if 0 <= k < b.len() {
            a[0] * b[k]
        } else {
            0
        }));
    } else {
        lemma_conv_partial_decompose(a, b, k, n - 1);
        assert(conv_partial(a, b, k, n) == conv_partial(a, b, k, n - 1) + conv_term(
            a,
            b,
            k,
            n - 1,
        ));
        assert(conv_term(a, b, k, n - 1) == conv_term(a.drop_first(), b, k - 1, n - 2)) by {
            if 1 <= n - 1 < a.len() {
                assert(a.drop_first()[n - 2] == a[n - 1]);
            }
        }
        if k < 1 {
            lemma_conv_partial_nonpos(a.drop_first(), b, k - 1, n - 1);
            assert(conv_term(a.drop_first(), b, k - 1, n - 2) == 0);
        } else {
            assert(conv_partial(a.drop_first(), b, k - 1, n - 1) == conv_partial(
                a.drop_first(),
                b,
                k - 1,
                n - 2,
            ) + conv_term(a.drop_first(), b, k - 1, n - 2));
        }
    }
}

/// Convolution entries at negative indices vanish.
proof fn lemma_conv_partial_nonpos(a: Seq<u64>, b: Seq<u64>, k: int, n: int)
    requires
        k < 0,
    ensures
        conv_partial(a, b, k, n) == 0,
    decreases n,
{
    if n > 0 {
        lemma_conv_partial_nonpos(a, b, k, n - 1);
    }
}

/// Evaluating a product of polynomials multiplies their evaluations.
#[verifier::rlimit(100)]
pub proof fn lemma_eval_pmul(a: Seq<u64>, b: Seq<u64>, x: int)
    ensures
        poly_eval(spec_pmul(a, b), x) == fmul(poly_eval(a, x), poly_eval(b, x)),
    decreases a.len(),
{
    let q = p();
    if a.len() == 0 || b.len() == 0 {
        assert(spec_pmul(a, b) =~= Seq::<u64>::empty());
        assert(poly_eval(a, x) * poly_eval(b, x) == 0) by {
            lemma_eval_bound(a, x);
            lemma_eval_bound(b, x);
            if a.len() == 0 {
                vstd::arithmetic::mul::lemma_mul_by_zero_is_zero(poly_eval(b, x));
            } else {
                vstd::arithmetic::mul::lemma_mul_by_zero_is_zero(poly_eval(a, x));
            }
        }
        lemma_small_mod(0nat, q as nat);
    } else {
        lemma_eval_trim(conv_raw(a, b), x);
        lemma_conv_raw_decompose(a, b, x);
        let scaled = Seq::new(b.len(), |i: int| fmul(b[i] as int, a[0] as int) as u64);
        let tailconv = if a.len() == 1 {
            Seq::<u64>::empty()
        } else {
            conv_raw(a.drop_first(), b)
        };
        let shifted = seq![0u64] + tailconv;
        lemma_eval_padd_raw(scaled, shifted, x);
        lemma_eval_scale(b, a[0], x);
        // shifted evaluation: one Horner step on the tail convolution.
        assert(shifted[0] == 0);
        assert(shifted.drop_first() =~= tailconv);
        assert(poly_eval(shifted, x) == (0 + x * poly_eval(tailconv, x)) % q);
        let eb = poly_eval(b, x);
        let ta: int = if a.len() == 1 {
            0
        } else {
            poly_eval(a.drop_first(), x)
        };
        if a.len() == 1 {
            assert(poly_eval(tailconv, x) == 0);
            assert(poly_eval(tailconv, x) == (ta * eb) % q) by {
                vstd::arithmetic::mul::lemma_mul_by_zero_is_zero(eb);
                lemma_small_mod(0nat, q as nat);
            }
            assert(poly_eval(a, x) == (a[0] + x * ta) % q) by {
                assert(a.drop_first() =~= Seq::<u64>::empty());
            }
        } else {
            lemma_eval_pmul(a.drop_first(), b, x);
            lemma_eval_trim(conv_raw(a.drop_first(), b), x);
            assert(poly_eval(tailconv, x) == fmul(ta, eb)) by {
                assert(spec_pmul(a.drop_first(), b) == spec_trim(conv_raw(a.drop_first(), b)));
            }
            assert(poly_eval(a, x) == (a[0] + x * ta) % q);
        }
        lemma_eval_final_step(a[0] as int, ta, eb, x);
        assert(poly_eval(spec_pmul(a, b), x) == poly_eval(conv_raw(a, b), x));
        assert(poly_eval(conv_raw(a, b), x) == poly_eval(padd_raw(scaled, shifted), x));
        assert(poly_eval(padd_raw(scaled, shifted), x) == fadd(
            poly_eval(scaled, x),
            poly_eval(shifted, x),
        ));
        assert(poly_eval(scaled, x) == (a[0] * eb) % q) by {
            vstd::arithmetic::mul::lemma_mul_is_commutative(eb, a[0] as int);
        }
        assert((a[0] * eb) % q == (a[0] * eb) % q % q) by {
            vstd::arithmetic::div_mod::lemma_mod_twice(a[0] * eb, q);
        }
        assert(poly_eval(shifted, x) == (0 + x * ((ta * eb) % q)) % q);
        assert(fadd(poly_eval(scaled, x), poly_eval(shifted, x)) == ((a[0] * eb) % q % q + (0 + x
            * ((ta * eb) % q)) % q) % q);
        assert(((a[0] + x * ta) % q * eb) % q == fmul(poly_eval(a, x), eb));
    }
}

/// Combining the head term and the shifted tail reproduces the Horner
/// step of the product.
proof fn lemma_eval_final_step(h: int, ta: int, eb: int, x: int)
    ensures
        ((h * eb) % p() % p() + (0 + x * ((ta * eb) % p())) % p()) % p() == ((h + x * ta) % p()
            * eb) % p(),
{
    let q = p();
    calc! {
        (==)
        ((h * eb) % q % q + (0 + x * ((ta * eb) % q)) % q) % q; {
            vstd::arithmetic::div_mod::lemma_mod_twice(h * eb, q);
            vstd::arithmetic::div_mod::lemma_mul_mod_noop_right(x, ta * eb, q);
            vstd::arithmetic::div_mod::lemma_mod_twice(x * (ta * eb), q);
            vstd::arithmetic::div_mod::lemma_add_mod_noop_right(
                (h * eb) % q,
                (x * (ta * eb)) % q,
                q,
            );
        }
        ((h * eb) % q + (x * (ta * eb)) % q) % q; {
            vstd::arithmetic::div_mod::lemma_add_mod_noop(h * eb, x * (ta * eb), q);
        }
        (h * eb + x * (ta * eb)) % q; {
            vstd::arithmetic::mul::lemma_mul_is_associative(x, ta, eb);
            vstd::arithmetic::mul::lemma_mul_is_distributive_add_other_way(eb, h, x * ta);
        }
        ((h + x * ta) * eb) % q; {
            vstd::arithmetic::div_mod::lemma_mul_mod_noop_left(h + x * ta, eb, q);
        }
        ((h + x * ta) % q * eb) % q;
    }
}

} // verus!
