//! Lagrange interpolation over the evaluation points {0, ..., n-1}.
//!
//! `get_lagrange_bases` builds the n basis polynomials, the i-th being
//! the product over j != i of (x - j) / (i - j) in field arithmetic;
//! `interpolate` combines them linearly with a vector of evaluations,
//! zero-padding missing evaluations.

use crate::euclid::{inverse, spec_inverse, SMALL_FACTOR_BOUND};
use crate::field::{add_modp, fmul, fneg, is_felt, mul_modp, neg_modp, p, PR};
use crate::poly::{
    all_felts, coeff_or_zero, poly_eval, poly_wf, spec_pmul, spec_trim, Poly,
};
use vstd::arithmetic::div_mod::{lemma_add_mod_noop, lemma_small_mod};
use vstd::calc;
use vstd::prelude::*;

verus! {

/// The coefficient sequences of a sequence of polynomials.
pub open spec fn polys_view(s: Seq<Poly>) -> Seq<Seq<u64>> {
    Seq::new(s.len(), |i: int| s[i]@)
}

/// The field element standing for the difference i - j of two distinct
/// evaluation points.
pub open spec fn spec_delta(i: int, j: int) -> u64 {
    if i > j {
        (i - j) as u64
    } else {
        (PR - (j - i)) as u64
    }
}

/// The linear factor (x - j) / (i - j) of the i-th basis polynomial:
/// coefficients [c * (-j), c] with c the inverse of i - j, canonical.
pub open spec fn spec_basis_factor(i: int, j: int) -> Seq<u64> {
    let c = spec_inverse(spec_delta(i, j));
    let c0 = fmul(c as int, fneg(j)) as u64;
    spec_trim(seq![c0, c])
}

/// The partial product of the first j linear factors of the i-th basis
/// polynomial (the factor at j == i is skipped).
pub open spec fn spec_basis_poly(i: int, j: int) -> Seq<u64>
    decreases j,
{
    if j <= 0 {
        seq![1u64]
    } else if j - 1 == i {
        spec_basis_poly(i, j - 1)
    } else {
        spec_pmul(spec_basis_poly(i, j - 1), spec_basis_factor(i, j - 1))
    }
}

/// The n Lagrange basis polynomials for the points {0, ..., n-1}.
pub open spec fn spec_lagrange_bases(n: int) -> Seq<Seq<u64>> {
    Seq::new(n as nat, |i: int| spec_basis_poly(i, n))
}

/// Build the n Lagrange basis polynomials for the evaluation points
/// {0, ..., n-1}.
pub fn get_lagrange_bases(n: u64) -> (r: Vec<Poly>)
    requires
        n < PR,
        n + 2 <= usize::MAX,
    ensures
        polys_view(r@) == spec_lagrange_bases(n as int),
        r@.len() == n,
        forall|i: int| 0 <= i < n ==> poly_wf(#[trigger] r@[i]@),
{
    let mut lag_polys: Vec<Poly> = Vec::new();
    let mut i: u64 = 0;
    while i < n
        invariant
            i <= n,
            n < PR,
            n + 2 <= usize::MAX,
            lag_polys@.len() == i,
            forall|t: int| 0 <= t < i ==> #[trigger] lag_polys@[t]@ == spec_basis_poly(t, n as int),
            forall|t: int| 0 <= t < i ==> poly_wf(#[trigger] lag_polys@[t]@),
        decreases n - i,
    {
        let mut li_poly = Poly::one();
        let mut j: u64 = 0;
        while j < n
            invariant
                j <= n,
                i < n,
                n < PR,
                n + 2 <= usize::MAX,
                li_poly@ == spec_basis_poly(i as int, j as int),
                poly_wf(li_poly@),
                li_poly@.len() <= j + 1,
            decreases n - j,
        {
            if j != i {
                let delta = if i > j {
                    i - j
                } else {
                    neg_modp(j - i)
                };
                proof {
                    if i <= j {
                        vstd::arithmetic::div_mod::lemma_mod_add_multiples_vanish(
                            0 - (j - i) as int,
                            p(),
                        );
                        vstd::arithmetic::div_mod::lemma_small_mod(
                            (PR - (j - i)) as nat,
                            p() as nat,
                        );
                    }
                    assert(delta == spec_delta(i as int, j as int));
                }
                let c = inverse(delta);
                let c0 = mul_modp(c, neg_modp(j));
                let mut factor: Vec<u64> = Vec::new();
                factor.push(c0);
                factor.push(c);
                proof {
                    assert(factor@ =~= seq![c0, c]);
                }
                let pij = Poly::from_coefficients_vec(factor);
                proof {
                    crate::poly::lemma_trim_props(seq![c0, c]);
                }
                let next = li_poly.mul(&pij);
                proof {
                    if li_poly@.len() > 0 && pij@.len() > 0 {
                        crate::poly::lemma_trim_props(crate::poly::conv_raw(li_poly@, pij@));
                    }
                }
                li_poly = next;
            }
            j = j + 1;
        }
        lag_polys.push(li_poly);
        i = i + 1;
    }
    proof {
        assert(polys_view(lag_polys@) =~= spec_lagrange_bases(n as int));
    }
    lag_polys
}

/// Term i of coefficient j of the interpolation sum: the j-th
/// coefficient of basis i times evaluation i.
pub open spec fn interp_term(bases: Seq<Seq<u64>>, evals: Seq<u64>, j: int, i: int) -> int {
    coeff_or_zero(bases[i], j) * evals[i]
}

/// The sum of the first n terms of coefficient j.
pub open spec fn interp_partial(bases: Seq<Seq<u64>>, evals: Seq<u64>, j: int, n: int) -> int
    decreases n,
{
    if n <= 0 {
        0
    } else {
        interp_partial(bases, evals, j, n - 1) + interp_term(bases, evals, j, n - 1)
    }
}

/// The canonical linear combination sum_i evals[i] * bases[i], with
/// width coefficients before canonicalization.
pub open spec fn spec_interpolate(bases: Seq<Seq<u64>>, evals: Seq<u64>, width: int) -> Seq<u64> {
    spec_trim(
        Seq::new(
            width as nat,
            |j: int| (interp_partial(bases, evals, j, evals.len() as int) % p()) as u64,
        ),
    )
}

/// The accumulator entry after the first i evaluations have been folded
/// into coefficient j, plus (during round i) the single term at i when
/// column j has already been visited.
pub open spec fn interp_frame(
    bases: Seq<Seq<u64>>,
    evals: Seq<u64>,
    j: int,
    i: int,
    cols: int,
) -> u64 {
    ((interp_partial(bases, evals, j, i) + (
    if 0 <= j < cols {
        interp_term(bases, evals, j, i)
    } else {
        0
    })) % p()) as u64
}

/// Reconstruct the polynomial of degree < bases.len() whose value at
/// point i is evals[i]; evaluations past the end of evals are taken to
/// be zero.
pub fn interpolate(lag_bases: &Vec<Poly>, evals: &Vec<u64>) -> (r: Poly)
    requires
        evals@.len() <= lag_bases@.len(),
        forall|i: int| 0 <= i < lag_bases@.len() ==> poly_wf(#[trigger] lag_bases@[i]@),
        all_felts(evals@),
    ensures
        r@ == spec_interpolate(polys_view(lag_bases@), evals@, lag_bases@.len() as int),
        poly_wf(r@),
{
    let len_evals = evals.len();
    let len_lags = lag_bases.len();
    let ghost bs = polys_view(lag_bases@);
    let ghost es = evals@;
    let mut coeffs: Vec<u64> = Vec::new();
    let mut j: usize = 0;
    while j < len_lags
        invariant
            j <= len_lags,
            coeffs@.len() == j,
            forall|t: int| 0 <= t < j ==> coeffs@[t] == 0,
        decreases len_lags - j,
    {
        coeffs.push(0);
        j = j + 1;
    }
    proof {
        lemma_small_mod(0nat, p() as nat);
    }
    let mut i: usize = 0;
    while i < len_evals
        invariant
            i <= len_evals,
            len_evals == es.len(),
            len_lags == bs.len(),
            len_lags == lag_bases@.len(),
            len_evals <= len_lags,
            bs == polys_view(lag_bases@),
            es == evals@,
            forall|t: int| 0 <= t < bs.len() ==> poly_wf(#[trigger] bs[t]),
            all_felts(es),
            coeffs@.len() == len_lags,
            all_felts(coeffs@),
            forall|t: int|
                0 <= t < len_lags ==> coeffs@[t] == (interp_partial(bs, es, t, i as int)
                    % p()) as u64,
        decreases len_evals - i,
    {
        let ev = evals[i];
        let mut j: usize = 0;
        while j < len_lags
            invariant
                j <= len_lags,
                i < len_evals,
                len_evals == es.len(),
                len_lags == bs.len(),
                len_lags == lag_bases@.len(),
                len_evals <= len_lags,
                bs == polys_view(lag_bases@),
                es == evals@,
                ev == es[i as int],
                forall|t: int| 0 <= t < bs.len() ==> poly_wf(#[trigger] bs[t]),
                all_felts(es),
                coeffs@.len() == len_lags,
                all_felts(coeffs@),
                forall|t: int|
                    0 <= t < len_lags ==> coeffs@[t] == interp_frame(
                        bs,
                        es,
                        t,
                        i as int,
                        j as int,
                    ),
            decreases len_lags - j,
        {
            let b = lag_bases[i].coeff(j);
            let ghost partial = interp_partial(bs, es, j as int, i as int);
            let ghost term = interp_term(bs, es, j as int, i as int);
            proof {
                assert(bs[i as int] == lag_bases@[i as int]@);
                assert((partial % p() + term % p()) % p() == (partial + term) % p()) by {
                    lemma_add_mod_noop(partial, term, p());
                }
            }
            let updated = add_modp(coeffs[j], mul_modp(b, ev));
            coeffs[j] = updated;
            proof {
                assert forall|t: int|
                    0 <= t < len_lags implies coeffs@[t] == interp_frame(
                    bs,
                    es,
                    t,
                    i as int,
                    j + 1,
                ) by {}
            }
            j = j + 1;
        }
        proof {
            assert forall|t: int|
                0 <= t < len_lags implies coeffs@[t] == (interp_partial(bs, es, t, i + 1)
                % p()) as u64 by {
                assert(interp_partial(bs, es, t, i + 1) == interp_partial(bs, es, t, i as int)
                    + interp_term(bs, es, t, i as int));
            }
        }
        i = i + 1;
    }
    proof {
        assert(coeffs@ =~= Seq::new(
            len_lags as nat,
            |t: int| (interp_partial(bs, es, t, es.len() as int) % p()) as u64,
        ));
    }
    Poly::from_coefficients_vec(coeffs)
}

/// The inverse of the point difference i - j, taken as a residue.
pub proof fn lemma_delta_inverse(i: int, j: int)
    requires
        0 <= i < SMALL_FACTOR_BOUND,
        0 <= j < SMALL_FACTOR_BOUND,
        i != j,
    ensures
        is_felt(spec_delta(i, j)),
        1 <= spec_delta(i, j),
        fmul(spec_delta(i, j) as int, spec_inverse(spec_delta(i, j)) as int) == 1,
        is_felt(spec_inverse(spec_delta(i, j))),
{
    let d = spec_delta(i, j);
    if i > j {
        crate::euclid::lemma_small_coprime(d);
    } else {
        let m = (j - i) as u64;
        crate::euclid::lemma_small_coprime(m);
        crate::euclid::lemma_complement_coprime(m);
    }
    crate::euclid::lemma_mul_inverse(d);
}

/// The linear factor of basis i at exclusion point j evaluates, at any
/// point t, to inv(i - j) * (t - j) modulo p.
pub proof fn lemma_factor_eval(i: int, j: int, t: int)
    requires
        0 <= i < SMALL_FACTOR_BOUND,
        0 <= j < SMALL_FACTOR_BOUND,
        i != j,
        0 <= t < PR,
    ensures
        poly_eval(spec_basis_factor(i, j), t) == (spec_inverse(spec_delta(i, j)) as int * (t
            - j)) % p(),
{
    let q = p();
    lemma_delta_inverse(i, j);
    let c = spec_inverse(spec_delta(i, j));
    let c0 = fmul(c as int, fneg(j)) as u64;
    crate::poly::lemma_eval_trim(seq![c0, c], t);
    let two = seq![c0, c];
    assert(two.drop_first() =~= seq![c]);
    assert(seq![c].drop_first() =~= Seq::<u64>::empty());
    assert(poly_eval(Seq::<u64>::empty(), t) == 0);
    assert(poly_eval(seq![c].drop_first(), t) == 0);
    assert(poly_eval(seq![c], t) == (c + t * 0) % q);
    assert(t * 0 == 0) by {
        vstd::arithmetic::mul::lemma_mul_by_zero_is_zero(t);
    }
    assert(poly_eval(seq![c], t) == c as int) by {
        lemma_small_mod(c as nat, q as nat);
    }
    assert(poly_eval(two, t) == (c0 + t * (c as int)) % q);
    assert(0 <= fmul(c as int, fneg(j)) < q) by {
        vstd::arithmetic::div_mod::lemma_mod_bound(c as int * fneg(j), q);
        vstd::arithmetic::div_mod::lemma_mod_bound(0 - j, q);
    }
    calc! {
        (==)
        (c0 as int + t * (c as int)) % q; {
            vstd::arithmetic::div_mod::lemma_add_mod_noop(c as int * fneg(j), t * (c as int), q);
            vstd::arithmetic::div_mod::lemma_mod_twice(c as int * fneg(j), q);
            vstd::arithmetic::div_mod::lemma_mod_twice(
                c as int * fneg(j) + t * (c as int),
                q,
            );
        }
        (c as int * fneg(j) + t * (c as int)) % q; {
            vstd::arithmetic::div_mod::lemma_add_mod_noop(
                c as int * ((0 - j) % q),
                t * (c as int),
                q,
            );
            vstd::arithmetic::div_mod::lemma_mul_mod_noop_right(c as int, 0 - j, q);
            vstd::arithmetic::div_mod::lemma_add_mod_noop(c as int * (0 - j), t * (c as int), q);
        }
        (c as int * (0 - j) + t * (c as int)) % q; {
            vstd::arithmetic::mul::lemma_mul_is_commutative(t, c as int);
            vstd::arithmetic::mul::lemma_mul_is_distributive_add(c as int, 0 - j, t);
        }
        (c as int * (t - j)) % q;
    }
}

/// Length of a partial basis product: at most one more than the
/// number of factors folded in, and exactly bounded by the stage once
/// the excluded index has been passed.
pub proof fn lemma_basis_len(i: int, j: int)
    requires
        0 <= i,
        0 <= j,
    ensures
        spec_basis_poly(i, j).len() <= if j > i {
            j
        } else {
            j + 1
        },
    decreases j,
{
    if j <= 0 {
    } else if j - 1 == i {
        lemma_basis_len(i, j - 1);
    } else {
        lemma_basis_len(i, j - 1);
        let a = spec_basis_poly(i, j - 1);
        let f = spec_basis_factor(i, j - 1);
        crate::poly::lemma_trim_props(
            seq![
                fmul(
                    spec_inverse(spec_delta(i, j - 1)) as int,
                    fneg(j - 1),
                ) as u64,
                spec_inverse(spec_delta(i, j - 1)),
            ],
        );
        if a.len() == 0 || f.len() == 0 {
        } else {
            crate::poly::lemma_trim_props(crate::poly::conv_raw(a, f));
        }
    }
}

/// Stagewise basis evaluation: the partial product is 1 at the basis
/// point, and 0 at any other grid point already excluded.
proof fn lemma_basis_partial_eval(i: int, j: int, t: int)
    requires
        0 <= i < SMALL_FACTOR_BOUND,
        0 <= j <= SMALL_FACTOR_BOUND,
        0 <= t < SMALL_FACTOR_BOUND,
    ensures
        t == i ==> poly_eval(spec_basis_poly(i, j), t) == 1,
        t != i && j > t ==> poly_eval(spec_basis_poly(i, j), t) == 0,
    decreases j,
{
    let q = p();
    if j <= 0 {
        assert(seq![1u64].drop_first() =~= Seq::<u64>::empty());
        assert(poly_eval(Seq::<u64>::empty(), t) == 0);
        assert(poly_eval(seq![1u64].drop_first(), t) == 0);
        assert(poly_eval(seq![1u64], t) == (1 + t * 0) % q);
        assert(t * 0 == 0) by {
            vstd::arithmetic::mul::lemma_mul_by_zero_is_zero(t);
        }
        lemma_small_mod(1nat, q as nat);
    } else if j - 1 == i {
        lemma_basis_partial_eval(i, j - 1, t);
    } else {
        lemma_basis_partial_eval(i, j - 1, t);
        let prev = spec_basis_poly(i, j - 1);
        let f = spec_basis_factor(i, j - 1);
        crate::poly::lemma_eval_pmul(prev, f, t);
        lemma_factor_eval(i, j - 1, t);
        let c = spec_inverse(spec_delta(i, j - 1));
        lemma_delta_inverse(i, j - 1);
        if t == i {
            assert(poly_eval(f, t) == (c as int * (i - (j - 1))) % q);
            assert((c as int * (i - (j - 1))) % q == 1) by {
                let d = spec_delta(i, j - 1);
                assert((i - (j - 1)) % q == d as int % q) by {
                    if i > j - 1 {
                    } else {
                        vstd::arithmetic::div_mod::lemma_mod_add_multiples_vanish(
                            i - (j - 1),
                            q,
                        );
                    }
                    lemma_small_mod(d as nat, q as nat);
                }
                vstd::arithmetic::div_mod::lemma_mul_mod_noop_right(c as int, i - (j - 1), q);
                vstd::arithmetic::div_mod::lemma_mul_mod_noop_right(c as int, d as int, q);
                vstd::arithmetic::mul::lemma_mul_is_commutative(c as int, d as int);
            }
            assert(fmul(1, 1) == 1) by {
                lemma_small_mod(1nat, q as nat);
            }
        } else if j > t {
            if j - 1 == t {
                assert(poly_eval(f, t) == (c as int * (t - (j - 1))) % q);
                assert(c as int * 0 == 0) by {
                    vstd::arithmetic::mul::lemma_mul_by_zero_is_zero(c as int);
                }
                assert(poly_eval(f, t) == 0) by {
                    lemma_small_mod(0nat, q as nat);
                }
                assert(fmul(poly_eval(prev, t), 0) == 0) by {
                    vstd::arithmetic::mul::lemma_mul_by_zero_is_zero(poly_eval(prev, t));
                    lemma_small_mod(0nat, q as nat);
                }
            } else {
                assert(poly_eval(prev, t) == 0);
                assert(fmul(0, poly_eval(f, t)) == 0) by {
                    vstd::arithmetic::mul::lemma_mul_by_zero_is_zero(poly_eval(f, t));
                    lemma_small_mod(0nat, q as nat);
                }
            }
        }
    }
}

/// The i-th Lagrange basis polynomial evaluates to 1 at its own point
/// and to 0 at every other point of the evaluation grid.
pub proof fn lemma_lagrange_basis_eval(n: u64, i: int, t: int)
    requires
        1 <= n,
        n <= SMALL_FACTOR_BOUND,
        0 <= i < n,
        0 <= t < n,
    ensures
        poly_eval(spec_basis_poly(i, n as int), t) == if t == i {
            1int
        } else {
            0int
        },
{
    lemma_basis_partial_eval(i, n as int, t);
}

/// The weighted sum of basis evaluations that interpolation denotes.
pub open spec fn interp_eval_sum(bases: Seq<Seq<u64>>, evals: Seq<u64>, x: int, m: int) -> int
    decreases m,
{
    if m <= 0 {
        0
    } else {
        interp_eval_sum(bases, evals, x, m - 1) + evals[m - 1] * poly_eval(bases[m - 1], x)
    }
}

/// Evaluating an interpolated polynomial gives the linear
/// combination of the basis evaluations, weighted by the supplied
/// values.
pub proof fn lemma_interp_eval(bases: Seq<Seq<u64>>, evals: Seq<u64>, w: int, x: int, m: int)
    requires
        0 <= m <= evals.len(),
        forall|i: int| 0 <= i < m ==> (#[trigger] bases[i]).len() <= w,
        w >= 0,
    ensures
        poly_eval(
            spec_trim(
                Seq::new(
                    w as nat,
                    |j: int| (interp_partial(bases, evals, j, m) % p()) as u64,
                ),
            ),
            x,
        ) == interp_eval_sum(bases, evals, x, m) % p(),
    decreases m,
{
    let q = p();
    let raw = Seq::new(w as nat, |j: int| (interp_partial(bases, evals, j, m) % q) as u64);
    crate::poly::lemma_eval_trim(raw, x);
    if m == 0 {
        let empty = Seq::<u64>::empty();
        assert(raw =~= Seq::new(w as nat, |j: int| coeff_or_zero(empty, j))) by {
            assert forall|j: int| 0 <= j < w implies raw[j] == coeff_or_zero(empty, j) by {
                lemma_small_mod(0nat, q as nat);
            }
        }
        crate::poly::lemma_eval_pad(empty, w, x);
        lemma_small_mod(0nat, q as nat);
    } else {
        let prev = Seq::new(
            w as nat,
            |j: int| (interp_partial(bases, evals, j, m - 1) % q) as u64,
        );
        let padded = Seq::new(w as nat, |j: int| coeff_or_zero(bases[m - 1], j));
        let ev = evals[m - 1];
        let scaled = Seq::new(
            padded.len(),
            |j: int| fmul(padded[j] as int, ev as int) as u64,
        );
        assert(raw =~= crate::poly::padd_raw(prev, scaled)) by {
            assert forall|j: int| 0 <= j < w implies raw[j] == crate::poly::padd_raw(
                prev,
                scaled,
            )[j] by {
                let a = interp_partial(bases, evals, j, m - 1);
                let b = coeff_or_zero(bases[m - 1], j) as int * ev;
                assert(interp_partial(bases, evals, j, m) == a + interp_term(
                    bases,
                    evals,
                    j,
                    m - 1,
                ));
                assert(interp_term(bases, evals, j, m - 1) == b) by {
                    vstd::arithmetic::mul::lemma_mul_is_commutative(
                        coeff_or_zero(bases[m - 1], j) as int,
                        ev as int,
                    );
                }
                assert((a % q + b % q) % q == (a + b) % q) by {
                    vstd::arithmetic::div_mod::lemma_add_mod_noop(a, b, q);
                }
            }
        }
        crate::poly::lemma_eval_padd_raw(prev, scaled, x);
        crate::poly::lemma_eval_trim(prev, x);
        lemma_interp_eval(bases, evals, w, x, m - 1);
        crate::poly::lemma_eval_scale(padded, ev, x);
        crate::poly::lemma_eval_pad(bases[m - 1], w, x);
        let sp = interp_eval_sum(bases, evals, x, m - 1);
        let eb = poly_eval(bases[m - 1], x);
        assert(poly_eval(raw, x) == (sp % q + (eb * ev) % q) % q);
        assert((sp % q + (eb * ev) % q) % q == (sp + ev * eb) % q) by {
            vstd::arithmetic::mul::lemma_mul_is_commutative(eb, ev as int);
            vstd::arithmetic::div_mod::lemma_add_mod_noop(sp, ev as int * eb, q);
        }
    }
}

/// A weighted sum over basis values that are 1 at one index and 0
/// elsewhere collapses to the single weight.
proof fn lemma_sum_kronecker(bases: Seq<Seq<u64>>, evals: Seq<u64>, t: int, m: int)
    requires
        0 <= m <= evals.len(),
        forall|i: int|
            0 <= i < m ==> poly_eval(#[trigger] bases[i], t) == (
            if i == t {
                1int
            } else {
                0int
            }),
    ensures
        interp_eval_sum(bases, evals, t, m) == if 0 <= t < m {
            evals[t] as int
        } else {
            0int
        },
    decreases m,
{
    if m <= 0 {
    } else {
        lemma_sum_kronecker(bases, evals, t, m - 1);
        if m - 1 == t {
            assert(evals[m - 1] * poly_eval(bases[m - 1], t) == evals[m - 1]) by {
                vstd::arithmetic::mul::lemma_mul_basics(evals[m - 1] as int);
            }
        } else {
            assert(evals[m - 1] * poly_eval(bases[m - 1], t) == 0) by {
                vstd::arithmetic::mul::lemma_mul_by_zero_is_zero(evals[m - 1] as int);
            }
        }
    }
}

/// Interpolating n or fewer evaluations over the points {0, ..., n-1}
/// and evaluating back at point t reproduces the evaluation at t, and
/// yields 0 at grid points past the supplied evaluations.
pub proof fn lemma_interpolate_evaluate(n: u64, evals: Seq<u64>, t: int)
    requires
        1 <= n,
        n <= SMALL_FACTOR_BOUND,
        evals.len() <= n,
        all_felts(evals),
        0 <= t < n,
    ensures
        poly_eval(spec_interpolate(spec_lagrange_bases(n as int), evals, n as int), t) == (
        if t < evals.len() {
            evals[t] as int
        } else {
            0int
        }),
{
    let bases = spec_lagrange_bases(n as int);
    let m = evals.len() as int;
    assert forall|i: int| 0 <= i < m implies (#[trigger] bases[i]).len() <= n by {
        assert(bases[i] == spec_basis_poly(i, n as int));
        lemma_basis_len(i, n as int);
    }
    lemma_interp_eval(bases, evals, n as int, t, m);
    assert forall|i: int|
        0 <= i < m implies poly_eval(#[trigger] bases[i], t) == (
        if i == t {
            1int
        } else {
            0int
        }) by {
        assert(bases[i] == spec_basis_poly(i, n as int));
        lemma_lagrange_basis_eval(n, i, t);
    }
    lemma_sum_kronecker(bases, evals, t, m);
    if t < m {
        lemma_small_mod(evals[t] as nat, p() as nat);
    } else {
        lemma_small_mod(0nat, p() as nat);
    }
}

} // verus!
