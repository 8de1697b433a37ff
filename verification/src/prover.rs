//! The multi-round folding ("FLIOP") prover over the coefficient
//! domain.
//!
//! The engine consumes five input vectors — four gate wires and one
//! masking variable — of T field elements each, batches the T parallel
//! circuit copies with powers of a transcript-derived challenge, and
//! folds the instance count by the compression factor each round.
//! Every round contributes one pair of additive secret shares of the
//! round polynomial's first k coefficients, one share per verifier;
//! the next round's evaluation point is derived from both verifiers'
//! transcripts.
//!
//! The whole computation is mirrored by spec functions, so a proof is
//! a function of the inputs, the schedule, the session id and the
//! injected random shares alone; `proof_valid` packages exactly that.

use crate::encoding::{be_words, u64_be_bytes, words_to_be_bytes};
use crate::field::{
    add_modp, fadd, fmul, fsub, is_felt, mul_modp, p, rand_modp, sub_modp, PR,
};
use crate::interpolation::{
    get_lagrange_bases, interpolate, polys_view, spec_interpolate, spec_lagrange_bases,
};
use crate::poly::{
    all_felts, coeff_or_zero, padd_raw, poly_eval, poly_wf, spec_cmul, spec_padd, spec_pmul, Poly,
};
use crate::transcript::{
    label_eta, label_k0, label_k1, label_r1, label_r2, label_sid, label_ss1, label_ss2,
    label_verifier1, label_verifier2, spec_challenge, spec_challenge_field, transcript_append_k0,
    transcript_append_k1, transcript_append_sid, transcript_append_ss1, transcript_append_ss2,
    transcript_challenge_eta, transcript_challenge_r1, transcript_challenge_r2, transcript_log,
    transcript_new_verifier1, transcript_new_verifier2, challenge_to_field,
};
use vstd::arithmetic::div_mod::{
    lemma_add_mod_noop, lemma_div_is_strictly_smaller, lemma_small_mod,
};
use vstd::prelude::*;

verus! {

/// Why proof generation was refused: the shape of the inputs broke the
/// engine's contract.
#[derive(Clone, Copy, Debug, PartialEq, Eq, Structural)]
pub enum ProveError {
    /// The relation takes exactly five input vectors.
    WrongVariableCount,
    /// The input vectors are empty.
    EmptyInput,
    /// The input vectors do not all have the same length.
    RaggedInput,
    /// Some input value is not a reduced residue.
    UnreducedValue,
    /// The compression schedule must name exactly two factors.
    BadSchedule,
    /// A compression factor below 2 folds nothing.
    CompressionTooSmall,
    /// A compression factor at or above p (or too large for this
    /// machine's addressing) is rejected.
    CompressionTooLarge,
    /// The input vectors are too long for this machine's addressing.
    InputTooLong,
}

/// The largest accepted compression factor: it keeps every round
/// share's byte encoding within the 32-bit message-length limit of
/// the transcript, and all chunk arithmetic within the machine.
pub const MAX_COMPRESSION: usize = (u32::MAX as usize) / 8;

/// The coefficient sequences of a vector of vectors.
pub open spec fn rows_view(s: Seq<Vec<u64>>) -> Seq<Seq<u64>> {
    Seq::new(s.len(), |i: int| s[i]@)
}

/// Ceiling division of a positive count by a positive chunk size.
pub open spec fn ceil_div(a: int, b: int) -> int {
    (a - 1) / b + 1
}

/// The shape conditions on the engine's inputs, checked in order; None
/// means the inputs are accepted.
pub open spec fn spec_validate(inputs: Seq<Seq<u64>>, ks: Seq<usize>) -> Option<ProveError> {
    if inputs.len() != 5 {
        Some(ProveError::WrongVariableCount)
    } else if inputs[0].len() == 0 {
        Some(ProveError::EmptyInput)
    } else if exists|l: int| 0 <= l < 5 && (#[trigger] inputs[l]).len() != inputs[0].len() {
        Some(ProveError::RaggedInput)
    } else if exists|l: int| 0 <= l < 5 && !all_felts(#[trigger] inputs[l]) {
        Some(ProveError::UnreducedValue)
    } else if ks.len() != 2 {
        Some(ProveError::BadSchedule)
    } else if ks[0] < 2 || ks[1] < 2 {
        Some(ProveError::CompressionTooSmall)
    } else if ks[0] > MAX_COMPRESSION || ks[1] > MAX_COMPRESSION {
        Some(ProveError::CompressionTooLarge)
    } else {
        None
    }
}

/// The number of rounds the protocol runs when it starts with s
/// folded instances and compresses by k1 from the second round on.
pub open spec fn spec_num_rounds(s: int, k1: int) -> int
    decreases s,
    when s >= 1 && k1 >= 2
    via spec_num_rounds_decreases
{
    if s <= 1 {
        1
    } else {
        1 + spec_num_rounds(ceil_div(s, k1), k1)
    }
}

#[via_fn]
proof fn spec_num_rounds_decreases(s: int, k1: int) {
    if s > 1 {
        lemma_div_is_strictly_smaller(s - 1, k1);
    }
}

/// End of chunk i when an s0-long vector splits into s chunks of size
/// k: the last chunk may be short.
pub open spec fn chunk_end(s0: int, k: int, s: int, i: int) -> int {
    if i == s - 1 {
        s0
    } else {
        (i + 1) * k
    }
}

/// Chunk i of a vector split into s chunks of size k.
pub open spec fn spec_chunk(row: Seq<u64>, k: int, s: int, i: int) -> Seq<u64> {
    row.subrange(i * k, chunk_end(row.len() as int, k, s, i))
}

/// The interpolated polynomial of every chunk of a row.
pub open spec fn spec_row_polys(row: Seq<u64>, bases: Seq<Seq<u64>>, k: int, s: int) -> Seq<
    Seq<u64>,
> {
    Seq::new(s as nat, |i: int| spec_interpolate(bases, spec_chunk(row, k, s, i), k))
}

/// Partial eta-weighted aggregate of column j over the first n chunks
/// of the masking row.
pub open spec fn agg_partial(
    row: Seq<u64>,
    etas: Seq<u64>,
    j: int,
    k: int,
    s: int,
    n: int,
) -> int
    decreases n,
{
    if n <= 0 {
        0
    } else {
        agg_partial(row, etas, j, k, s, n - 1) + (
        if j < chunk_end(row.len() as int, k, s, n - 1) - (n - 1) * k {
            row[(n - 1) * k + j] * etas[n - 1]
        } else {
            0
        })
    }
}

/// The eta-weighted, chunkwise-aligned aggregate of the masking row:
/// one column per evaluation point of a chunk.
pub open spec fn spec_agg(row: Seq<u64>, etas: Seq<u64>, k: int, s: int) -> Seq<u64> {
    Seq::new(k as nat, |j: int| (agg_partial(row, etas, j, k, s, s) % p()) as u64)
}

/// The eta-weighted sum of the chunkwise gate polynomials
/// (f0 * f1 + f2 * f3) * eta^i over the first n chunks.
pub open spec fn spec_gate_accum(
    f0: Seq<Seq<u64>>,
    f1: Seq<Seq<u64>>,
    f2: Seq<Seq<u64>>,
    f3: Seq<Seq<u64>>,
    etas: Seq<u64>,
    n: int,
) -> Seq<u64>
    decreases n,
{
    if n <= 0 {
        Seq::empty()
    } else {
        spec_padd(
            spec_gate_accum(f0, f1, f2, f3, etas, n - 1),
            spec_cmul(
                spec_padd(spec_pmul(f0[n - 1], f1[n - 1]), spec_pmul(f2[n - 1], f3[n - 1])),
                etas[n - 1],
            ),
        )
    }
}

/// Verifier 2's share: the round coefficients minus verifier 1's
/// random share, coefficient by coefficient.
pub open spec fn spec_ss2(pcoeffs: Seq<u64>, ss1: Seq<u64>) -> Seq<u64> {
    Seq::new(ss1.len(), |i: int| fsub(coeff_or_zero(pcoeffs, i) as int, ss1[i] as int) as u64)
}

/// Every chunk polynomial evaluated at the folding challenge.
pub open spec fn spec_fold_row(polys: Seq<Seq<u64>>, r: u64) -> Seq<u64> {
    Seq::new(polys.len(), |i: int| poly_eval(polys[i], r as int) as u64)
}

/// The Lagrange basis polynomials evaluated at the challenge point.
pub open spec fn spec_lag_evals(bases: Seq<Seq<u64>>, r: u64, k: int) -> Seq<u64> {
    Seq::new(k as nat, |j: int| poly_eval(bases[j], r as int) as u64)
}

/// Partial dot product of chunk i of the masking row with the basis
/// values at the challenge.
pub open spec fn mask_fold_partial(row: Seq<u64>, lag: Seq<u64>, i: int, k: int, n: int) -> int
    decreases n,
{
    if n <= 0 {
        0
    } else {
        mask_fold_partial(row, lag, i, k, n - 1) + row[i * k + (n - 1)] * lag[n - 1]
    }
}

/// The masking row folded to one value per chunk: each chunk's dot
/// product with the basis values at the challenge, reduced.
pub open spec fn spec_fold_mask(row: Seq<u64>, lag: Seq<u64>, k: int, s: int) -> Seq<u64> {
    Seq::new(
        s as nat,
        |i: int| (mask_fold_partial(row, lag, i, k, chunk_end(row.len() as int, k, s, i) - i * k)
            % p()) as u64,
    )
}

/// The eta weights re-folded for the next round: each chunk of the
/// current weights interpolated and evaluated at the challenge.
pub open spec fn spec_fold_etas(etas: Seq<u64>, bases1: Seq<Seq<u64>>, k1: int, r: u64) -> Seq<
    u64,
> {
    let s0 = etas.len() as int;
    let s = ceil_div(s0, k1);
    Seq::new(
        s as nat,
        |i: int| poly_eval(spec_interpolate(bases1, spec_chunk(etas, k1, s, i), k1), r as int) as u64,
    )
}

/// eta^i modulo p.
pub open spec fn spec_pow_eta(eta: u64, i: int) -> u64
    decreases i,
{
    if i <= 0 {
        1u64
    } else {
        fmul(spec_pow_eta(eta, i - 1) as int, eta as int) as u64
    }
}

/// The first n powers of eta.
pub open spec fn spec_eta_powers(eta: u64, n: int) -> Seq<u64> {
    Seq::new(n as nat, |i: int| spec_pow_eta(eta, i))
}

/// A challenge drawn from a transcript state: the raw word and the
/// state the transcript advances to.
pub open spec fn spec_draw(log: Seq<Seq<u8>>, label: Seq<u8>) -> (u64, Seq<Seq<u8>>) {
    let raw = spec_challenge(log, label);
    (raw, log.push(label).push(u64_be_bytes(raw)))
}

/// The round polynomial's coefficients for the current state: the
/// eta-weighted gate products of every chunk plus the interpolated
/// masking aggregate.
pub open spec fn spec_round_pcoeffs(
    g0: Seq<u64>,
    g1: Seq<u64>,
    g2: Seq<u64>,
    g3: Seq<u64>,
    mask: Seq<u64>,
    etas: Seq<u64>,
    k: int,
    bases: Seq<Seq<u64>>,
) -> Seq<u64> {
    let s = etas.len() as int;
    spec_padd(
        spec_gate_accum(
            spec_row_polys(g0, bases, k, s),
            spec_row_polys(g1, bases, k, s),
            spec_row_polys(g2, bases, k, s),
            spec_row_polys(g3, bases, k, s),
            etas,
            s,
        ),
        spec_interpolate(bases, spec_agg(mask, etas, k, s), k),
    )
}

/// The folding challenge of a round: the sum of one challenge from
/// each verifier's transcript after that verifier's share was bound.
pub open spec fn spec_round_r(t1a: Seq<Seq<u8>>, t2a: Seq<Seq<u8>>) -> u64 {
    fadd(
        spec_challenge_field(spec_challenge(t1a, label_r1())) as int,
        spec_challenge_field(spec_challenge(t2a, label_r2())) as int,
    ) as u64
}

/// One round's output per entry: verifier 1's share, verifier 2's
/// share, and the round polynomial's coefficients the two shares sum
/// to; the remaining rounds follow on the folded state.
pub open spec fn spec_rounds(
    g0: Seq<u64>,
    g1: Seq<u64>,
    g2: Seq<u64>,
    g3: Seq<u64>,
    mask: Seq<u64>,
    etas: Seq<u64>,
    k: int,
    k1: int,
    bases: Seq<Seq<u64>>,
    bases1: Seq<Seq<u64>>,
    t1_log: Seq<Seq<u8>>,
    t2_log: Seq<Seq<u8>>,
    ss1s: Seq<Seq<u64>>,
) -> Seq<(Seq<u64>, Seq<u64>, Seq<u64>)>
    decreases etas.len(),
    when etas.len() >= 1 && k1 >= 2
    via spec_rounds_decreases
{
    let s = etas.len() as int;
    let pcoeffs = spec_round_pcoeffs(g0, g1, g2, g3, mask, etas, k, bases);
    let ss1 = ss1s[0];
    let ss2 = spec_ss2(pcoeffs, ss1);
    let t1a = t1_log.push(label_ss1()).push(be_words(ss1));
    let t2a = t2_log.push(label_ss2()).push(be_words(ss2));
    if s <= 1 {
        seq![(ss1, ss2, pcoeffs)]
    } else {
        let r = spec_round_r(t1a, t2a);
        let t1b = t1a.push(label_r1()).push(u64_be_bytes(spec_challenge(t1a, label_r1())));
        let t2b = t2a.push(label_r2()).push(u64_be_bytes(spec_challenge(t2a, label_r2())));
        seq![(ss1, ss2, pcoeffs)] + spec_rounds(
            spec_fold_row(spec_row_polys(g0, bases, k, s), r),
            spec_fold_row(spec_row_polys(g1, bases, k, s), r),
            spec_fold_row(spec_row_polys(g2, bases, k, s), r),
            spec_fold_row(spec_row_polys(g3, bases, k, s), r),
            spec_fold_mask(mask, spec_lag_evals(bases, r, k), k, s),
            spec_fold_etas(etas, bases1, k1, r),
            k1,
            k1,
            bases1,
            bases1,
            t1b,
            t2b,
            ss1s.drop_first(),
        )
    }
}

#[via_fn]
proof fn spec_rounds_decreases(
    g0: Seq<u64>,
    g1: Seq<u64>,
    g2: Seq<u64>,
    g3: Seq<u64>,
    mask: Seq<u64>,
    etas: Seq<u64>,
    k: int,
    k1: int,
    bases: Seq<Seq<u64>>,
    bases1: Seq<Seq<u64>>,
    t1_log: Seq<Seq<u8>>,
    t2_log: Seq<Seq<u8>>,
    ss1s: Seq<Seq<u64>>,
) {
    if etas.len() > 1 {
        lemma_div_is_strictly_smaller(etas.len() - 1, k1);
        assert(spec_fold_etas(etas, bases1, k1, 0).len() == ceil_div(etas.len() as int, k1));
    }
}

/// The transcript state of verifier v's channel after the public
/// parameters are bound: domain label, then k0, k1 and the session id.
pub open spec fn spec_params_log(domain: Seq<u8>, k0: int, k1: int, sid: int) -> Seq<Seq<u8>> {
    seq![domain].push(label_k0()).push(u64_be_bytes(k0 as u64)).push(label_k1()).push(
        u64_be_bytes(k1 as u64),
    ).push(label_sid()).push(u64_be_bytes(sid as u64))
}

/// The complete sequence of round outputs for the given inputs,
/// schedule, session id and choice of verifier 1's shares: transcripts
/// bind the public parameters, the batching challenge eta comes from
/// verifier 1's transcript, and the rounds run to completion.
pub open spec fn spec_proof_rounds(
    inputs: Seq<Seq<u64>>,
    k0: int,
    k1: int,
    sid: int,
    ss1s: Seq<Seq<u64>>,
) -> Seq<(Seq<u64>, Seq<u64>, Seq<u64>)> {
    let t1a = spec_params_log(label_verifier1(), k0, k1, sid);
    let t2a = spec_params_log(label_verifier2(), k0, k1, sid);
    let (raw_eta, t1b) = spec_draw(t1a, label_eta());
    let eta = spec_challenge_field(raw_eta);
    let s = ceil_div(inputs[0].len() as int, k0);
    let etas = spec_eta_powers(eta, s);
    spec_rounds(
        inputs[0],
        inputs[1],
        inputs[2],
        inputs[3],
        inputs[4],
        etas,
        k0,
        k1,
        spec_lagrange_bases(k0),
        spec_lagrange_bases(k1),
        t1b,
        t2a,
        ss1s,
    )
}

/// The shape verifier 1's shares must have: one vector per round, of
/// the round's coefficient count, all entries reduced.
pub open spec fn shares_shape_ok(ss1s: Seq<Seq<u64>>, t: int, k0: int, k1: int) -> bool {
    let rounds = spec_num_rounds(ceil_div(t, k0), k1);
    &&& ss1s.len() == rounds
    &&& forall|i: int|
        0 <= i < rounds ==> (#[trigger] ss1s[i]).len() == (
        if i == 0 {
            k0
        } else {
            k1
        })
    &&& forall|i: int| 0 <= i < rounds ==> all_felts(#[trigger] ss1s[i])
}

/// A proof of the multiplication-gate relation: per round, the two
/// verifiers' additive shares of the round polynomial's coefficients.
/// The two share sequences are bound for different verifiers and are
/// never combined by the prover.
pub struct Proof {
    pub p_coeffs_ss1: Vec<Vec<u64>>,
    pub p_coeffs_ss2: Vec<Vec<u64>>,
}

impl View for Proof {
    type V = (Seq<Seq<u64>>, Seq<Seq<u64>>);

    open spec fn view(&self) -> (Seq<Seq<u64>>, Seq<Seq<u64>>) {
        (rows_view(self.p_coeffs_ss1@), rows_view(self.p_coeffs_ss2@))
    }
}

/// What it means for a pair of share sequences to be the proof that
/// the engine computes for these inputs: the inputs are well shaped,
/// verifier 1's shares have the per-round shape, and both sequences
/// agree with the recomputed rounds.
pub open spec fn proof_valid(
    ss1v: Seq<Seq<u64>>,
    ss2v: Seq<Seq<u64>>,
    inputs: Seq<Seq<u64>>,
    ks: Seq<usize>,
    sid: int,
) -> bool {
    let pairs = spec_proof_rounds(inputs, ks[0] as int, ks[1] as int, sid, ss1v);
    &&& spec_validate(inputs, ks) is None
    &&& shares_shape_ok(ss1v, inputs[0].len() as int, ks[0] as int, ks[1] as int)
    &&& ss2v.len() == ss1v.len()
    &&& forall|i: int| 0 <= i < ss1v.len() ==> (#[trigger] ss2v[i]) == pairs[i].1
}

/// Splitting an (len)-long vector into ceil(len/k) chunks of k keeps
/// every chunk inside the vector, non-empty, and at most k long.
pub proof fn lemma_chunk_bounds(len: int, k: int, s: int, i: int)
    requires
        len >= 1,
        k >= 1,
        s == ceil_div(len, k),
        0 <= i < s,
    ensures
        i * k <= len - 1,
        i < s - 1 ==> i * k + k <= len - 1,
        i < s - 1 ==> chunk_end(len, k, s, i) == i * k + k,
        i * k < chunk_end(len, k, s, i),
        chunk_end(len, k, s, i) <= len,
        chunk_end(len, k, s, i) - i * k <= k,
{
    let q = (len - 1) / k;
    vstd::arithmetic::div_mod::lemma_fundamental_div_mod(len - 1, k);
    vstd::arithmetic::div_mod::lemma_mod_bound(len - 1, k);
    assert(len - 1 == k * q + (len - 1) % k);
    assert((s - 1) * k == k * q) by {
        vstd::arithmetic::mul::lemma_mul_is_commutative(s - 1, k);
    }
    assert((s - 1) * k <= len - 1);
    vstd::arithmetic::mul::lemma_mul_inequality(i, s - 1, k);
    if i < s - 1 {
        vstd::arithmetic::mul::lemma_mul_inequality(i + 1, s - 1, k);
        assert((i + 1) * k == i * k + k) by {
            vstd::arithmetic::mul::lemma_mul_is_distributive_add_other_way(k, i, 1);
            vstd::arithmetic::mul::lemma_mul_basics(k);
        }
    } else {
        assert(len <= s * k) by {
            assert(s * k == k * q + k) by {
                vstd::arithmetic::mul::lemma_mul_is_commutative(s, k);
                vstd::arithmetic::mul::lemma_mul_is_distributive_add(k, q, 1);
                vstd::arithmetic::mul::lemma_mul_basics(k);
            }
        }
        assert(s * k == i * k + k) by {
            vstd::arithmetic::mul::lemma_mul_is_distributive_add_other_way(k, i, 1);
            vstd::arithmetic::mul::lemma_mul_basics(k);
        }
    }
}

/// Check the shape of the engine's inputs, in the order the contract
/// fixes; None means the inputs are accepted.
pub fn validate(inputs: &Vec<Vec<u64>>, ks: &[usize]) -> (r: Option<ProveError>)
    ensures
        r == spec_validate(rows_view(inputs@), ks@),
{
    let ghost iv = rows_view(inputs@);
    if inputs.len() != 5 {
        return Some(ProveError::WrongVariableCount);
    }
    let t = inputs[0].len();
    if t == 0 {
        proof {
            assert(iv[0].len() == 0);
        }
        return Some(ProveError::EmptyInput);
    }
    let mut l: usize = 0;
    while l < 5
        invariant
            l <= 5,
            t >= 1,
            inputs@.len() == 5,
            iv == rows_view(inputs@),
            t == inputs@[0]@.len(),
            forall|t0: int| 0 <= t0 < l ==> (#[trigger] iv[t0]).len() == t,
        decreases 5 - l,
    {
        if inputs[l].len() != t {
            proof {
                assert(iv[l as int] == inputs@[l as int]@);
                assert(iv[0] == inputs@[0]@);
                assert(exists|ll: int|
                    0 <= ll < 5 && (#[trigger] iv[ll]).len() != iv[0].len()) by {
                    assert(iv[l as int].len() != iv[0].len());
                }
            }
            return Some(ProveError::RaggedInput);
        }
        l = l + 1;
    }
    let mut l: usize = 0;
    while l < 5
        invariant
            l <= 5,
            t >= 1,
            inputs@.len() == 5,
            iv == rows_view(inputs@),
            t == inputs@[0]@.len(),
            forall|t0: int| 0 <= t0 < 5 ==> (#[trigger] iv[t0]).len() == t,
            forall|t0: int| 0 <= t0 < l ==> all_felts(#[trigger] iv[t0]),
        decreases 5 - l,
    {
        let row = &inputs[l];
        let mut i: usize = 0;
        while i < t
            invariant
                i <= t,
                l < 5,
                t >= 1,
                inputs@.len() == 5,
                iv == rows_view(inputs@),
                row@ == iv[l as int],
                t == inputs@[0]@.len(),
                t == iv[l as int].len(),
                forall|t0: int| 0 <= t0 < 5 ==> (#[trigger] iv[t0]).len() == t,
                forall|t0: int| 0 <= t0 < i ==> is_felt(#[trigger] row@[t0]),
            decreases t - i,
        {
            if row[i] >= PR {
                proof {
                    assert(!all_felts(iv[l as int])) by {
                        assert(iv[l as int][i as int] == row@[i as int]);
                    }
                    assert(exists|ll: int| 0 <= ll < 5 && !all_felts(#[trigger] iv[ll])) by {
                        assert(!all_felts(iv[l as int]));
                    }
                }
                return Some(ProveError::UnreducedValue);
            }
            i = i + 1;
        }
        proof {
            assert(all_felts(iv[l as int]));
        }
        l = l + 1;
    }
    if ks.len() != 2 {
        return Some(ProveError::BadSchedule);
    }
    if ks[0] < 2 || ks[1] < 2 {
        return Some(ProveError::CompressionTooSmall);
    }
    if ks[0] > MAX_COMPRESSION || ks[1] > MAX_COMPRESSION {
        return Some(ProveError::CompressionTooLarge);
    }
    None
}

/// The number of rounds the protocol will run for t copies compressed
/// first by k0, then by k1.
pub fn num_rounds(t: usize, k0: usize, k1: usize) -> (r: usize)
    requires
        t >= 1,
        k0 >= 2,
        k1 >= 2,
    ensures
        r == spec_num_rounds(ceil_div(t as int, k0 as int), k1 as int),
        r >= 1,
{
    let mut s = (t - 1) / k0 + 1;
    let mut count: usize = 1;
    proof {
        vstd::arithmetic::div_mod::lemma_div_is_ordered(t - 1, t - 1, k0 as int);
        vstd::arithmetic::div_mod::lemma_div_nonincreasing(t - 1, k0 as int);
    }
    while s > 1
        invariant
            s >= 1,
            count >= 1,
            k1 >= 2,
            count + s <= t + 1,
            spec_num_rounds(ceil_div(t as int, k0 as int), k1 as int) == count - 1
                + spec_num_rounds(s as int, k1 as int),
        decreases s,
    {
        proof {
            lemma_div_is_strictly_smaller(s - 1, k1 as int);
            vstd::arithmetic::div_mod::lemma_div_pos_is_pos(s - 1, k1 as int);
        }
        s = (s - 1) / k1 + 1;
        count = count + 1;
    }
    count
}

/// Copy the subrange [start, end) of a vector.
pub fn chunk_to_vec(v: &Vec<u64>, start: usize, end: usize) -> (r: Vec<u64>)
    requires
        start <= end,
        end <= v@.len(),
    ensures
        r@ == v@.subrange(start as int, end as int),
{
    let mut out: Vec<u64> = Vec::new();
    let mut i = start;
    while i < end
        invariant
            start <= i <= end,
            end <= v@.len(),
            out@ == v@.subrange(start as int, i as int),
        decreases end - i,
    {
        out.push(v[i]);
        proof {
            assert(out@ =~= v@.subrange(start as int, i + 1));
        }
        i = i + 1;
    }
    out
}

/// The first s powers of the batching challenge.
pub fn eta_powers(eta: u64, s: usize) -> (r: Vec<u64>)
    requires
        is_felt(eta),
    ensures
        r@ == spec_eta_powers(eta, s as int),
        r@.len() == s,
        all_felts(r@),
{
    let mut out: Vec<u64> = Vec::new();
    let mut eta_power: u64 = 1;
    let mut i: usize = 0;
    while i < s
        invariant
            i <= s,
            is_felt(eta),
            is_felt(eta_power),
            eta_power == spec_pow_eta(eta, i as int),
            out@.len() == i,
            forall|t: int| 0 <= t < i ==> out@[t] == spec_pow_eta(eta, t),
            all_felts(out@),
        decreases s - i,
    {
        out.push(eta_power);
        eta_power = mul_modp(eta_power, eta);
        i = i + 1;
    }
    proof {
        assert(out@ =~= spec_eta_powers(eta, s as int));
    }
    out
}

/// Interpolate every chunk of a row into one polynomial per chunk.
pub fn interp_chunks(bases: &Vec<Poly>, row: &Vec<u64>, k: usize, s: usize) -> (r: Vec<Poly>)
    requires
        k >= 1,
        row@.len() >= 1,
        s == ceil_div(row@.len() as int, k as int),
        bases@.len() == k,
        forall|i: int| 0 <= i < k ==> poly_wf(#[trigger] bases@[i]@),
        all_felts(row@),
    ensures
        polys_view(r@) == spec_row_polys(row@, polys_view(bases@), k as int, s as int),
        r@.len() == s,
        forall|i: int| 0 <= i < s ==> poly_wf(#[trigger] r@[i]@),
        forall|i: int| 0 <= i < s ==> (#[trigger] r@[i]@).len() <= k,
{
    let row_len = row.len();
    let mut out: Vec<Poly> = Vec::new();
    let mut i: usize = 0;
    while i < s
        invariant
            i <= s,
            k >= 1,
            row_len == row@.len(),
            row@.len() >= 1,
            s == ceil_div(row@.len() as int, k as int),
            bases@.len() == k,
            forall|t: int| 0 <= t < k ==> poly_wf(#[trigger] bases@[t]@),
            all_felts(row@),
            out@.len() == i,
            forall|t: int|
                0 <= t < i ==> (#[trigger] out@[t])@ == spec_interpolate(
                    polys_view(bases@),
                    spec_chunk(row@, k as int, s as int, t),
                    k as int,
                ),
            forall|t: int| 0 <= t < i ==> poly_wf(#[trigger] out@[t]@),
            forall|t: int| 0 <= t < i ==> (#[trigger] out@[t]@).len() <= k,
        decreases s - i,
    {
        proof {
            lemma_chunk_bounds(row@.len() as int, k as int, s as int, i as int);
        }
        let cur = i * k;
        let end = if i == s - 1 {
            row_len
        } else {
            cur + k
        };
        let chunk = chunk_to_vec(row, cur, end);
        proof {
            assert(chunk@ == spec_chunk(row@, k as int, s as int, i as int));
            assert(all_felts(chunk@));
        }
        let poly = interpolate(bases, &chunk);
        proof {
            lemma_interp_len(polys_view(bases@), chunk@, k as int);
        }
        out.push(poly);
        i = i + 1;
    }
    proof {
        assert(polys_view(out@) =~= spec_row_polys(
            row@,
            polys_view(bases@),
            k as int,
            s as int,
        ));
    }
    out
}

/// The accumulator entry of the masking aggregate after the first i
/// chunks, plus chunk i's term once column j has been visited.
pub open spec fn agg_frame(
    row: Seq<u64>,
    etas: Seq<u64>,
    j: int,
    k: int,
    s: int,
    i: int,
    cols: int,
) -> u64 {
    ((agg_partial(row, etas, j, k, s, i) + (
    if 0 <= j < cols {
        if j < chunk_end(row.len() as int, k, s, i) - i * k {
            row[i * k + j] * etas[i]
        } else {
            0
        }
    } else {
        0
    })) % p()) as u64
}

/// Batch the masking row against the eta weights, one aggregate value
/// per in-chunk column.
pub fn aggregate_mask(row: &Vec<u64>, etas: &Vec<u64>, k: usize, s: usize) -> (r: Vec<u64>)
    requires
        k >= 1,
        row@.len() >= 1,
        s == ceil_div(row@.len() as int, k as int),
        etas@.len() == s,
        all_felts(row@),
        all_felts(etas@),
    ensures
        r@ == spec_agg(row@, etas@, k as int, s as int),
        r@.len() == k,
        all_felts(r@),
{
    let ghost rs = row@;
    let ghost es = etas@;
    let mut agg: Vec<u64> = Vec::new();
    let mut j: usize = 0;
    while j < k
        invariant
            j <= k,
            agg@.len() == j,
            forall|t: int| 0 <= t < j ==> agg@[t] == 0,
        decreases k - j,
    {
        agg.push(0);
        j = j + 1;
    }
    proof {
        lemma_small_mod(0nat, p() as nat);
    }
    let row_len = row.len();
    let mut i: usize = 0;
    while i < s
        invariant
            i <= s,
            k >= 1,
            row_len == rs.len(),
            rs.len() >= 1,
            s == ceil_div(rs.len() as int, k as int),
            rs == row@,
            es == etas@,
            es.len() == s,
            all_felts(rs),
            all_felts(es),
            agg@.len() == k,
            all_felts(agg@),
            forall|t: int|
                0 <= t < k ==> agg@[t] == (agg_partial(rs, es, t, k as int, s as int, i as int)
                    % p()) as u64,
        decreases s - i,
    {
        proof {
            lemma_chunk_bounds(rs.len() as int, k as int, s as int, i as int);
        }
        let cur = i * k;
        let end = if i == s - 1 {
            row_len
        } else {
            cur + k
        };
        let len = end - cur;
        let ev = etas[i];
        let mut j: usize = 0;
        while j < len
            invariant
                j <= len,
                i < s,
                k >= 1,
                rs.len() >= 1,
                s == ceil_div(rs.len() as int, k as int),
                rs == row@,
                es == etas@,
                es.len() == s,
                ev == es[i as int],
                all_felts(rs),
                all_felts(es),
                cur == i * k,
                end == chunk_end(rs.len() as int, k as int, s as int, i as int),
                len == end - cur,
                len <= k,
                end <= rs.len(),
                agg@.len() == k,
                all_felts(agg@),
                forall|t: int|
                    0 <= t < k ==> agg@[t] == agg_frame(
                        rs,
                        es,
                        t,
                        k as int,
                        s as int,
                        i as int,
                        j as int,
                    ),
            decreases len - j,
        {
            let ghost partial = agg_partial(rs, es, j as int, k as int, s as int, i as int);
            let ghost term = rs[i as int * k + j] * es[i as int];
            proof {
                assert((partial % p() + term % p()) % p() == (partial + term) % p()) by {
                    lemma_add_mod_noop(partial, term, p());
                }
            }
            let updated = add_modp(agg[j], mul_modp(row[cur + j], ev));
            agg[j] = updated;
            proof {
                assert forall|t: int|
                    0 <= t < k implies agg@[t] == agg_frame(
                    rs,
                    es,
                    t,
                    k as int,
                    s as int,
                    i as int,
                    j + 1,
                ) by {}
            }
            j = j + 1;
        }
        proof {
            assert forall|t: int|
                0 <= t < k implies agg@[t] == (agg_partial(rs, es, t, k as int, s as int, i + 1)
                % p()) as u64 by {
                assert(agg_partial(rs, es, t, k as int, s as int, i + 1) == agg_partial(
                    rs,
                    es,
                    t,
                    k as int,
                    s as int,
                    i as int,
                ) + (
                if t < chunk_end(rs.len() as int, k as int, s as int, i as int) - i * k {
                    rs[i * k + t] * es[i as int]
                } else {
                    0
                }));
            }
        }
        i = i + 1;
    }
    proof {
        assert(agg@ =~= spec_agg(rs, es, k as int, s as int));
    }
    agg
}

/// Accumulate the eta-weighted gate polynomials of all chunks:
/// (f0[i] * f1[i] + f2[i] * f3[i]) * eta^i, summed over i.
pub fn gate_poly(
    f0: &Vec<Poly>,
    f1: &Vec<Poly>,
    f2: &Vec<Poly>,
    f3: &Vec<Poly>,
    etas: &Vec<u64>,
    k: usize,
) -> (r: Poly)
    requires
        f0@.len() == etas@.len(),
        f1@.len() == etas@.len(),
        f2@.len() == etas@.len(),
        f3@.len() == etas@.len(),
        forall|i: int| 0 <= i < f0@.len() ==> poly_wf(#[trigger] f0@[i]@),
        forall|i: int| 0 <= i < f1@.len() ==> poly_wf(#[trigger] f1@[i]@),
        forall|i: int| 0 <= i < f2@.len() ==> poly_wf(#[trigger] f2@[i]@),
        forall|i: int| 0 <= i < f3@.len() ==> poly_wf(#[trigger] f3@[i]@),
        forall|i: int| 0 <= i < f0@.len() ==> (#[trigger] f0@[i]@).len() <= k,
        forall|i: int| 0 <= i < f1@.len() ==> (#[trigger] f1@[i]@).len() <= k,
        forall|i: int| 0 <= i < f2@.len() ==> (#[trigger] f2@[i]@).len() <= k,
        forall|i: int| 0 <= i < f3@.len() ==> (#[trigger] f3@[i]@).len() <= k,
        k + k <= usize::MAX,
        all_felts(etas@),
    ensures
        r@ == spec_gate_accum(
            polys_view(f0@),
            polys_view(f1@),
            polys_view(f2@),
            polys_view(f3@),
            etas@,
            etas@.len() as int,
        ),
        poly_wf(r@),
{
    let s = etas.len();
    let mut p_poly = Poly::zero();
    let mut i: usize = 0;
    while i < s
        invariant
            i <= s,
            s == etas@.len(),
            f0@.len() == s,
            f1@.len() == s,
            f2@.len() == s,
            f3@.len() == s,
            forall|t: int| 0 <= t < s ==> poly_wf(#[trigger] f0@[t]@),
            forall|t: int| 0 <= t < s ==> poly_wf(#[trigger] f1@[t]@),
            forall|t: int| 0 <= t < s ==> poly_wf(#[trigger] f2@[t]@),
            forall|t: int| 0 <= t < s ==> poly_wf(#[trigger] f3@[t]@),
            forall|t: int| 0 <= t < s ==> (#[trigger] f0@[t]@).len() <= k,
            forall|t: int| 0 <= t < s ==> (#[trigger] f1@[t]@).len() <= k,
            forall|t: int| 0 <= t < s ==> (#[trigger] f2@[t]@).len() <= k,
            forall|t: int| 0 <= t < s ==> (#[trigger] f3@[t]@).len() <= k,
            k + k <= usize::MAX,
            all_felts(etas@),
            poly_wf(p_poly@),
            p_poly@ == spec_gate_accum(
                polys_view(f0@),
                polys_view(f1@),
                polys_view(f2@),
                polys_view(f3@),
                etas@,
                i as int,
            ),
        decreases s - i,
    {
        let tmp1 = f0[i].mul(&f1[i]);
        let tmp2 = f2[i].mul(&f3[i]);
        let res = tmp1.add(&tmp2).cmul(etas[i]);
        p_poly = p_poly.add(&res);
        i = i + 1;
    }
    p_poly
}

/// Verifier 2's share of the round coefficients: the coefficients
/// minus verifier 1's random share, entry by entry.
pub fn split_shares(p_poly: &Poly, ss1: &Vec<u64>) -> (r: Vec<u64>)
    requires
        poly_wf(p_poly@),
        all_felts(ss1@),
    ensures
        r@ == spec_ss2(p_poly@, ss1@),
        r@.len() == ss1@.len(),
        all_felts(r@),
{
    let mut out: Vec<u64> = Vec::new();
    let mut i: usize = 0;
    while i < ss1.len()
        invariant
            i <= ss1@.len(),
            poly_wf(p_poly@),
            all_felts(ss1@),
            out@.len() == i,
            forall|t: int|
                0 <= t < i ==> out@[t] == fsub(
                    coeff_or_zero(p_poly@, t) as int,
                    ss1@[t] as int,
                ) as u64,
            all_felts(out@),
        decreases ss1@.len() - i,
    {
        out.push(sub_modp(p_poly.coeff(i), ss1[i]));
        i = i + 1;
    }
    proof {
        assert(out@ =~= spec_ss2(p_poly@, ss1@));
    }
    out
}

/// Evaluate every polynomial of a vector at the challenge point.
pub fn fold_row(polys: &Vec<Poly>, point: u64) -> (r: Vec<u64>)
    requires
        forall|i: int| 0 <= i < polys@.len() ==> poly_wf(#[trigger] polys@[i]@),
        is_felt(point),
    ensures
        r@ == spec_fold_row(polys_view(polys@), point),
        r@.len() == polys@.len(),
        all_felts(r@),
{
    let mut out: Vec<u64> = Vec::new();
    let mut i: usize = 0;
    while i < polys.len()
        invariant
            i <= polys@.len(),
            forall|t: int| 0 <= t < polys@.len() ==> poly_wf(#[trigger] polys@[t]@),
            is_felt(point),
            out@.len() == i,
            forall|t: int|
                0 <= t < i ==> out@[t] == poly_eval(polys@[t]@, point as int) as u64,
            all_felts(out@),
        decreases polys@.len() - i,
    {
        let v = polys[i].evaluate(point);
        proof {
            if polys@[i as int]@.len() > 0 {
                vstd::arithmetic::div_mod::lemma_mod_bound(
                    (polys@[i as int]@[0] + point * poly_eval(
                        polys@[i as int]@.drop_first(),
                        point as int,
                    )),
                    p(),
                );
            }
        }
        out.push(v);
        i = i + 1;
    }
    proof {
        assert(out@ =~= spec_fold_row(polys_view(polys@), point));
    }
    out
}

/// Fold the masking row: each chunk's dot product with the basis
/// values at the challenge, reduced modulo p.
pub fn fold_mask(row: &Vec<u64>, lag: &Vec<u64>, k: usize, s: usize) -> (r: Vec<u64>)
    requires
        k >= 1,
        row@.len() >= 1,
        s == ceil_div(row@.len() as int, k as int),
        lag@.len() == k,
        all_felts(row@),
        all_felts(lag@),
    ensures
        r@ == spec_fold_mask(row@, lag@, k as int, s as int),
        r@.len() == s,
        all_felts(r@),
{
    let ghost rs = row@;
    let ghost ls = lag@;
    let row_len = row.len();
    let mut out: Vec<u64> = Vec::new();
    let mut i: usize = 0;
    while i < s
        invariant
            i <= s,
            k >= 1,
            row_len == rs.len(),
            rs.len() >= 1,
            s == ceil_div(rs.len() as int, k as int),
            rs == row@,
            ls == lag@,
            ls.len() == k,
            all_felts(rs),
            all_felts(ls),
            out@.len() == i,
            forall|t: int|
                0 <= t < i ==> out@[t] == (mask_fold_partial(
                    rs,
                    ls,
                    t,
                    k as int,
                    chunk_end(rs.len() as int, k as int, s as int, t) - t * k,
                ) % p()) as u64,
            all_felts(out@),
        decreases s - i,
    {
        proof {
            lemma_chunk_bounds(rs.len() as int, k as int, s as int, i as int);
        }
        let cur = i * k;
        let end = if i == s - 1 {
            row_len
        } else {
            cur + k
        };
        let len = end - cur;
        let mut acc: u64 = 0;
        let mut j: usize = 0;
        proof {
            lemma_small_mod(0nat, p() as nat);
        }
        while j < len
            invariant
                j <= len,
                i < s,
                k >= 1,
                rs.len() >= 1,
                rs == row@,
                ls == lag@,
                ls.len() == k,
                all_felts(rs),
                all_felts(ls),
                cur == i * k,
                end == chunk_end(rs.len() as int, k as int, s as int, i as int),
                len == end - cur,
                len <= k,
                end <= rs.len(),
                is_felt(acc),
                acc == (mask_fold_partial(rs, ls, i as int, k as int, j as int) % p()) as u64,
            decreases len - j,
        {
            let ghost partial = mask_fold_partial(rs, ls, i as int, k as int, j as int);
            let ghost term = rs[i as int * k + j] * ls[j as int];
            proof {
                assert((partial % p() + term % p()) % p() == (partial + term) % p()) by {
                    lemma_add_mod_noop(partial, term, p());
                }
            }
            acc = add_modp(acc, mul_modp(row[cur + j], lag[j]));
            j = j + 1;
        }
        out.push(acc);
        i = i + 1;
    }
    proof {
        assert(out@ =~= spec_fold_mask(rs, ls, k as int, s as int));
    }
    out
}

/// Fold the eta weights for the next round: interpolate each chunk of
/// the current weights and evaluate it at the challenge.
pub fn fold_etas(etas: &Vec<u64>, bases1: &Vec<Poly>, k1: usize, r: u64) -> (res: Vec<u64>)
    requires
        k1 >= 1,
        etas@.len() >= 1,
        bases1@.len() == k1,
        forall|i: int| 0 <= i < k1 ==> poly_wf(#[trigger] bases1@[i]@),
        all_felts(etas@),
        is_felt(r),
    ensures
        res@ == spec_fold_etas(etas@, polys_view(bases1@), k1 as int, r),
        res@.len() == ceil_div(etas@.len() as int, k1 as int),
        all_felts(res@),
{
    let ghost es = etas@;
    let etas_len = etas.len();
    let s = (etas_len - 1) / k1 + 1;
    let mut out: Vec<u64> = Vec::new();
    let mut i: usize = 0;
    while i < s
        invariant
            i <= s,
            k1 >= 1,
            etas_len == es.len(),
            es.len() >= 1,
            s == ceil_div(es.len() as int, k1 as int),
            es == etas@,
            bases1@.len() == k1,
            forall|t: int| 0 <= t < k1 ==> poly_wf(#[trigger] bases1@[t]@),
            all_felts(es),
            is_felt(r),
            out@.len() == i,
            forall|t: int|
                0 <= t < i ==> out@[t] == poly_eval(
                    spec_interpolate(
                        polys_view(bases1@),
                        spec_chunk(es, k1 as int, s as int, t),
                        k1 as int,
                    ),
                    r as int,
                ) as u64,
            all_felts(out@),
        decreases s - i,
    {
        proof {
            lemma_chunk_bounds(es.len() as int, k1 as int, s as int, i as int);
        }
        let cur = i * k1;
        let end = if i == s - 1 {
            etas_len
        } else {
            cur + k1
        };
        let chunk = chunk_to_vec(etas, cur, end);
        proof {
            assert(chunk@ == spec_chunk(es, k1 as int, s as int, i as int));
            assert(all_felts(chunk@));
        }
        let poly = interpolate(bases1, &chunk);
        let v = poly.evaluate(r);
        out.push(v);
        i = i + 1;
    }
    proof {
        assert(out@ =~= spec_fold_etas(es, polys_view(bases1@), k1 as int, r));
    }
    out
}

/// An interpolated polynomial has at most as many coefficients as the
/// requested width.
pub proof fn lemma_interp_len(bases: Seq<Seq<u64>>, evals: Seq<u64>, width: int)
    requires
        width >= 0,
    ensures
        spec_interpolate(bases, evals, width).len() <= width,
{
    crate::poly::lemma_trim_props(
        Seq::new(
            width as nat,
            |j: int| (crate::interpolation::interp_partial(bases, evals, j, evals.len() as int)
                % p()) as u64,
        ),
    );
}

/// One unfolding of the round recursion: the head entry's pieces, the
/// total round count, and the tail's relation to the folded state.
pub proof fn lemma_round_step(
    g0: Seq<u64>,
    g1: Seq<u64>,
    g2: Seq<u64>,
    g3: Seq<u64>,
    mask: Seq<u64>,
    etas: Seq<u64>,
    k: int,
    k1: int,
    bases: Seq<Seq<u64>>,
    bases1: Seq<Seq<u64>>,
    t1: Seq<Seq<u8>>,
    t2: Seq<Seq<u8>>,
    ss1s: Seq<Seq<u64>>,
)
    requires
        etas.len() >= 1,
        k1 >= 2,
    ensures
        ({
            let rounds = spec_rounds(g0, g1, g2, g3, mask, etas, k, k1, bases, bases1, t1, t2, ss1s);
            let pcoeffs = spec_round_pcoeffs(g0, g1, g2, g3, mask, etas, k, bases);
            let ss2 = spec_ss2(pcoeffs, ss1s[0]);
            let t1a = t1.push(label_ss1()).push(be_words(ss1s[0]));
            let t2a = t2.push(label_ss2()).push(be_words(ss2));
            let r = spec_round_r(t1a, t2a);
            &&& rounds.len() == spec_num_rounds(etas.len() as int, k1)
            &&& rounds[0] == (ss1s[0], ss2, pcoeffs)
            &&& (etas.len() > 1 ==> rounds.drop_first() == spec_rounds(
                spec_fold_row(spec_row_polys(g0, bases, k, etas.len() as int), r),
                spec_fold_row(spec_row_polys(g1, bases, k, etas.len() as int), r),
                spec_fold_row(spec_row_polys(g2, bases, k, etas.len() as int), r),
                spec_fold_row(spec_row_polys(g3, bases, k, etas.len() as int), r),
                spec_fold_mask(mask, spec_lag_evals(bases, r, k), k, etas.len() as int),
                spec_fold_etas(etas, bases1, k1, r),
                k1,
                k1,
                bases1,
                bases1,
                t1a.push(label_r1()).push(u64_be_bytes(spec_challenge(t1a, label_r1()))),
                t2a.push(label_r2()).push(u64_be_bytes(spec_challenge(t2a, label_r2()))),
                ss1s.drop_first(),
            ))
            &&& (etas.len() <= 1 ==> rounds.len() == 1)
        }),
    decreases etas.len(),
{
    let rounds = spec_rounds(g0, g1, g2, g3, mask, etas, k, k1, bases, bases1, t1, t2, ss1s);
    if etas.len() > 1 {
        lemma_div_is_strictly_smaller(etas.len() - 1, k1);
        let pcoeffs = spec_round_pcoeffs(g0, g1, g2, g3, mask, etas, k, bases);
        let ss2 = spec_ss2(pcoeffs, ss1s[0]);
        let t1a = t1.push(label_ss1()).push(be_words(ss1s[0]));
        let t2a = t2.push(label_ss2()).push(be_words(ss2));
        let r = spec_round_r(t1a, t2a);
        lemma_round_step(
            spec_fold_row(spec_row_polys(g0, bases, k, etas.len() as int), r),
            spec_fold_row(spec_row_polys(g1, bases, k, etas.len() as int), r),
            spec_fold_row(spec_row_polys(g2, bases, k, etas.len() as int), r),
            spec_fold_row(spec_row_polys(g3, bases, k, etas.len() as int), r),
            spec_fold_mask(mask, spec_lag_evals(bases, r, k), k, etas.len() as int),
            spec_fold_etas(etas, bases1, k1, r),
            k1,
            k1,
            bases1,
            bases1,
            t1a.push(label_r1()).push(u64_be_bytes(spec_challenge(t1a, label_r1()))),
            t2a.push(label_r2()).push(u64_be_bytes(spec_challenge(t2a, label_r2()))),
            ss1s.drop_first(),
        );
    }
}

/// The engine's live working set between rounds: the four gate rows,
/// the masking row, and the eta weights, one entry per chunk.
pub struct RoundState {
    pub g0: Vec<u64>,
    pub g1: Vec<u64>,
    pub g2: Vec<u64>,
    pub g3: Vec<u64>,
    pub mask: Vec<u64>,
    pub etas: Vec<u64>,
}

/// Well-formedness of the working set under compression factor k.
pub open spec fn state_wf(st: RoundState, k: int) -> bool {
    &&& st.g0@.len() == st.mask@.len()
    &&& st.g1@.len() == st.mask@.len()
    &&& st.g2@.len() == st.mask@.len()
    &&& st.g3@.len() == st.mask@.len()
    &&& st.mask@.len() >= 1
    &&& all_felts(st.g0@)
    &&& all_felts(st.g1@)
    &&& all_felts(st.g2@)
    &&& all_felts(st.g3@)
    &&& all_felts(st.mask@)
    &&& all_felts(st.etas@)
    &&& st.etas@.len() == ceil_div(st.mask@.len() as int, k)
    &&& st.etas@.len() >= 1
}

/// Execute one round on the working set: emit verifier 2's share of
/// the round polynomial, bind both shares into the transcripts, and —
/// unless this was the final round — derive the folding challenge and
/// fold the state for the next round.
#[verifier::rlimit(100)]
fn round_step(
    st: RoundState,
    k_cur: usize,
    k1: usize,
    bases: &Vec<Poly>,
    bases1: &Vec<Poly>,
    transcript1: &mut merlin::Transcript,
    transcript2: &mut merlin::Transcript,
    ss1: &Vec<u64>,
) -> (res: (RoundState, Vec<u64>))
    requires
        2 <= k_cur,
        (k_cur as u64) < PR,
        k_cur <= usize::MAX / 2 - 2,
        2 <= k1,
        (k1 as u64) < PR,
        k1 <= usize::MAX / 2 - 2,
        state_wf(st, k_cur as int),
        bases@.len() == k_cur,
        forall|i: int| 0 <= i < k_cur ==> poly_wf(#[trigger] bases@[i]@),
        bases1@.len() == k1,
        forall|i: int| 0 <= i < k1 ==> poly_wf(#[trigger] bases1@[i]@),
        polys_view(bases1@) == spec_lagrange_bases(k1 as int),
        all_felts(ss1@),
        ss1@.len() <= MAX_COMPRESSION,
    ensures
        ({
            let pcoeffs = spec_round_pcoeffs(
                st.g0@,
                st.g1@,
                st.g2@,
                st.g3@,
                st.mask@,
                st.etas@,
                k_cur as int,
                polys_view(bases@),
            );
            let ss2v = spec_ss2(pcoeffs, ss1@);
            let t1a = transcript_log(*old(transcript1)).push(label_ss1()).push(be_words(ss1@));
            let t2a = transcript_log(*old(transcript2)).push(label_ss2()).push(be_words(ss2v));
            let r = spec_round_r(t1a, t2a);
            &&& res.1@ == ss2v
            &&& all_felts(res.1@)
            &&& res.1@.len() == ss1@.len()
            &&& (st.etas@.len() <= 1 ==> {
                &&& transcript_log(*final(transcript1)) == t1a
                &&& transcript_log(*final(transcript2)) == t2a
            })
            &&& (st.etas@.len() > 1 ==> {
                &&& transcript_log(*final(transcript1)) == t1a.push(label_r1()).push(
                    u64_be_bytes(spec_challenge(t1a, label_r1())),
                )
                &&& transcript_log(*final(transcript2)) == t2a.push(label_r2()).push(
                    u64_be_bytes(spec_challenge(t2a, label_r2())),
                )
                &&& res.0.g0@ == spec_fold_row(
                    spec_row_polys(
                        st.g0@,
                        polys_view(bases@),
                        k_cur as int,
                        st.etas@.len() as int,
                    ),
                    r,
                )
                &&& res.0.g1@ == spec_fold_row(
                    spec_row_polys(
                        st.g1@,
                        polys_view(bases@),
                        k_cur as int,
                        st.etas@.len() as int,
                    ),
                    r,
                )
                &&& res.0.g2@ == spec_fold_row(
                    spec_row_polys(
                        st.g2@,
                        polys_view(bases@),
                        k_cur as int,
                        st.etas@.len() as int,
                    ),
                    r,
                )
                &&& res.0.g3@ == spec_fold_row(
                    spec_row_polys(
                        st.g3@,
                        polys_view(bases@),
                        k_cur as int,
                        st.etas@.len() as int,
                    ),
                    r,
                )
                &&& res.0.mask@ == spec_fold_mask(
                    st.mask@,
                    spec_lag_evals(polys_view(bases@), r, k_cur as int),
                    k_cur as int,
                    st.etas@.len() as int,
                )
                &&& res.0.etas@ == spec_fold_etas(
                    st.etas@,
                    spec_lagrange_bases(k1 as int),
                    k1 as int,
                    r,
                )
                &&& state_wf(res.0, k1 as int)
            })
        }),
{
    let s = st.etas.len();
    let ghost bv = polys_view(bases@);
    let f0 = interp_chunks(bases, &st.g0, k_cur, s);
    let f1 = interp_chunks(bases, &st.g1, k_cur, s);
    let f2 = interp_chunks(bases, &st.g2, k_cur, s);
    let f3 = interp_chunks(bases, &st.g3, k_cur, s);
    let agg = aggregate_mask(&st.mask, &st.etas, k_cur, s);
    let mask_poly = interpolate(bases, &agg);
    let gates = gate_poly(&f0, &f1, &f2, &f3, &st.etas, k_cur);
    let p_poly = gates.add(&mask_poly);
    proof {
        assert(p_poly@ == spec_round_pcoeffs(
            st.g0@,
            st.g1@,
            st.g2@,
            st.g3@,
            st.mask@,
            st.etas@,
            k_cur as int,
            bv,
        ));
    }
    let ss2 = split_shares(&p_poly, ss1);
    let ss1_bytes = words_to_be_bytes(ss1);
    transcript_append_ss1(transcript1, ss1_bytes.as_slice());
    let ss2_bytes = words_to_be_bytes(&ss2);
    transcript_append_ss2(transcript2, ss2_bytes.as_slice());
    if s == 1 {
        (st, ss2)
    } else {
        let raw1 = transcript_challenge_r1(transcript1);
        let raw2 = transcript_challenge_r2(transcript2);
        let r1 = challenge_to_field(raw1);
        let r2 = challenge_to_field(raw2);
        let r = add_modp(r1, r2);
        let lag_evals = fold_row(bases, r);
        proof {
            assert(lag_evals@ =~= spec_lag_evals(bv, r, k_cur as int));
        }
        let new_g0 = fold_row(&f0, r);
        let new_g1 = fold_row(&f1, r);
        let new_g2 = fold_row(&f2, r);
        let new_g3 = fold_row(&f3, r);
        let new_mask = fold_mask(&st.mask, &lag_evals, k_cur, s);
        let new_etas = fold_etas(&st.etas, bases1, k1, r);
        let new_st = RoundState {
            g0: new_g0,
            g1: new_g1,
            g2: new_g2,
            g3: new_g3,
            mask: new_mask,
            etas: new_etas,
        };
        (new_st, ss2)
    }
}

/// Run the rounds of the folding protocol with verifier 1's shares
/// supplied from outside: the proof is then a function of the inputs,
/// the schedule, the session id and those shares alone.
#[verifier::rlimit(100)]
pub fn rounds_with_shares(
    inputs: &Vec<Vec<u64>>,
    ks: &[usize],
    sid: usize,
    ss1s: &Vec<Vec<u64>>,
) -> (res: Proof)
    requires
        spec_validate(rows_view(inputs@), ks@) is None,
        shares_shape_ok(
            rows_view(ss1s@),
            inputs@[0]@.len() as int,
            ks@[0] as int,
            ks@[1] as int,
        ),
    ensures
        ({
            let pairs = spec_proof_rounds(
                rows_view(inputs@),
                ks@[0] as int,
                ks@[1] as int,
                sid as int,
                rows_view(ss1s@),
            );
            &&& res@.0 == rows_view(ss1s@)
            &&& res@.1.len() == pairs.len()
            &&& res@.0.len() == pairs.len()
            &&& forall|i: int| 0 <= i < pairs.len() ==> (#[trigger] res@.1[i]) == pairs[i].1
            &&& forall|i: int| 0 <= i < res@.1.len() ==> all_felts(#[trigger] res@.1[i])
        }),
{
    let ghost iv = rows_view(inputs@);
    let ghost ssv = rows_view(ss1s@);
    let t = inputs[0].len();
    let k0 = ks[0];
    let k1 = ks[1];
    proof {
        assert(iv.len() == 5);
        assert(forall|l: int| 0 <= l < 5 ==> (#[trigger] iv[l]).len() == t);
        assert(forall|l: int| 0 <= l < 5 ==> all_felts(#[trigger] iv[l]));
        assert(iv[0] == inputs@[0]@ && iv[1] == inputs@[1]@ && iv[2] == inputs@[2]@ && iv[3]
            == inputs@[3]@ && iv[4] == inputs@[4]@);
    }
    let mut transcript1 = transcript_new_verifier1();
    let mut transcript2 = transcript_new_verifier2();
    transcript_append_k0(&mut transcript1, k0 as u64);
    transcript_append_k1(&mut transcript1, k1 as u64);
    transcript_append_sid(&mut transcript1, sid as u64);
    transcript_append_k0(&mut transcript2, k0 as u64);
    transcript_append_k1(&mut transcript2, k1 as u64);
    transcript_append_sid(&mut transcript2, sid as u64);
    proof {
        assert(transcript_log(transcript1) =~= spec_params_log(
            label_verifier1(),
            k0 as int,
            k1 as int,
            sid as int,
        ));
        assert(transcript_log(transcript2) =~= spec_params_log(
            label_verifier2(),
            k0 as int,
            k1 as int,
            sid as int,
        ));
    }
    let raw_eta = transcript_challenge_eta(&mut transcript1);
    let eta = challenge_to_field(raw_eta);
    let s_init = (t - 1) / k0 + 1;
    let etas = eta_powers(eta, s_init);
    let g0 = chunk_to_vec(&inputs[0], 0, t);
    let g1 = chunk_to_vec(&inputs[1], 0, t);
    let g2 = chunk_to_vec(&inputs[2], 0, t);
    let g3 = chunk_to_vec(&inputs[3], 0, t);
    let mask = chunk_to_vec(&inputs[4], 0, t);
    proof {
        assert(g0@ =~= iv[0]);
        assert(g1@ =~= iv[1]);
        assert(g2@ =~= iv[2]);
        assert(g3@ =~= iv[3]);
        assert(mask@ =~= iv[4]);
    }
    let lag_bases_0 = get_lagrange_bases(k0 as u64);
    let lag_bases_1 = get_lagrange_bases(k1 as u64);
    let rounds_total = num_rounds(t, k0, k1);
    let ghost pairs = spec_proof_rounds(iv, k0 as int, k1 as int, sid as int, ssv);
    proof {
        vstd::arithmetic::div_mod::lemma_div_pos_is_pos(t - 1, k0 as int);
        lemma_round_step(
            iv[0],
            iv[1],
            iv[2],
            iv[3],
            iv[4],
            spec_eta_powers(spec_challenge_field(spec_challenge(
                spec_params_log(label_verifier1(), k0 as int, k1 as int, sid as int),
                label_eta(),
            )), ceil_div(t as int, k0 as int)),
            k0 as int,
            k1 as int,
            spec_lagrange_bases(k0 as int),
            spec_lagrange_bases(k1 as int),
            spec_params_log(label_verifier1(), k0 as int, k1 as int, sid as int).push(
                label_eta(),
            ).push(u64_be_bytes(spec_challenge(
                spec_params_log(label_verifier1(), k0 as int, k1 as int, sid as int),
                label_eta(),
            ))),
            spec_params_log(label_verifier2(), k0 as int, k1 as int, sid as int),
            ssv,
        );
        assert(pairs.len() == rounds_total);
    }
    let mut p_coeffs_ss1: Vec<Vec<u64>> = Vec::new();
    let mut p_coeffs_ss2: Vec<Vec<u64>> = Vec::new();
    proof {
        let t1a = spec_params_log(label_verifier1(), k0 as int, k1 as int, sid as int);
        assert(transcript_log(transcript1) == t1a.push(label_eta()).push(u64_be_bytes(raw_eta)));
        assert(raw_eta == spec_challenge(t1a, label_eta()));
        assert(etas@ == spec_eta_powers(eta, ceil_div(t as int, k0 as int)));
        assert(ssv.skip(0) =~= ssv);
        assert(pairs.skip(0) =~= pairs);
        assert(spec_rounds(
            g0@,
            g1@,
            g2@,
            g3@,
            mask@,
            etas@,
            k0 as int,
            k1 as int,
            spec_lagrange_bases(k0 as int),
            spec_lagrange_bases(k1 as int),
            transcript_log(transcript1),
            transcript_log(transcript2),
            ssv,
        ) == pairs);
    }
    let mut st = RoundState { g0, g1, g2, g3, mask, etas };
    let mut round: usize = 0;
    while round < rounds_total
        invariant
            k0 >= 2,
            k1 >= 2,
            (k0 as u64) < PR,
            (k1 as u64) < PR,
            k0 <= usize::MAX / 2 - 2,
            k1 <= usize::MAX / 2 - 2,
            t >= 1,
            round <= rounds_total,
            pairs == spec_proof_rounds(iv, k0 as int, k1 as int, sid as int, ssv),
            pairs.len() == rounds_total,
            ssv == rows_view(ss1s@),
            ssv.len() == rounds_total,
            forall|i: int| 0 <= i < rounds_total ==> all_felts(#[trigger] ssv[i]),
            forall|i: int|
                0 <= i < rounds_total ==> (#[trigger] ssv[i]).len() == (
                if i == 0 {
                    k0 as int
                } else {
                    k1 as int
                }),
            k0 <= MAX_COMPRESSION,
            k1 <= MAX_COMPRESSION,
            round < rounds_total ==> state_wf(
                st,
                if round == 0 {
                    k0 as int
                } else {
                    k1 as int
                },
            ),
            polys_view(lag_bases_0@) == spec_lagrange_bases(k0 as int),
            lag_bases_0@.len() == k0,
            forall|i: int| 0 <= i < k0 ==> poly_wf(#[trigger] lag_bases_0@[i]@),
            polys_view(lag_bases_1@) == spec_lagrange_bases(k1 as int),
            lag_bases_1@.len() == k1,
            forall|i: int| 0 <= i < k1 ==> poly_wf(#[trigger] lag_bases_1@[i]@),
            p_coeffs_ss1@.len() == round,
            p_coeffs_ss2@.len() == round,
            forall|i: int| 0 <= i < round ==> (#[trigger] p_coeffs_ss1@[i])@ == ssv[i],
            forall|i: int| 0 <= i < round ==> (#[trigger] p_coeffs_ss2@[i])@ == pairs[i].1,
            forall|i: int| 0 <= i < round ==> all_felts((#[trigger] p_coeffs_ss2@[i])@),
            round < rounds_total ==> rounds_total - round == spec_num_rounds(
                st.etas@.len() as int,
                k1 as int,
            ),
            round < rounds_total ==> spec_rounds(
                st.g0@,
                st.g1@,
                st.g2@,
                st.g3@,
                st.mask@,
                st.etas@,
                if round == 0 {
                    k0 as int
                } else {
                    k1 as int
                },
                k1 as int,
                if round == 0 {
                    spec_lagrange_bases(k0 as int)
                } else {
                    spec_lagrange_bases(k1 as int)
                },
                spec_lagrange_bases(k1 as int),
                transcript_log(transcript1),
                transcript_log(transcript2),
                ssv.skip(round as int),
            ) == pairs.skip(round as int),
        decreases rounds_total - round,
    {
        let k_cur = if round == 0 {
            k0
        } else {
            k1
        };
        let bases_ref = if round == 0 {
            &lag_bases_0
        } else {
            &lag_bases_1
        };
        let ghost bv = polys_view(bases_ref@);
        let ghost t1_pre = transcript_log(transcript1);
        let ghost t2_pre = transcript_log(transcript2);
        let ghost ss_suffix = ssv.skip(round as int);
        let ghost cur_rounds = spec_rounds(
            st.g0@,
            st.g1@,
            st.g2@,
            st.g3@,
            st.mask@,
            st.etas@,
            k_cur as int,
            k1 as int,
            bv,
            spec_lagrange_bases(k1 as int),
            t1_pre,
            t2_pre,
            ss_suffix,
        );
        proof {
            lemma_round_step(
                st.g0@,
                st.g1@,
                st.g2@,
                st.g3@,
                st.mask@,
                st.etas@,
                k_cur as int,
                k1 as int,
                bv,
                spec_lagrange_bases(k1 as int),
                t1_pre,
                t2_pre,
                ss_suffix,
            );
        }
        let done = st.etas.len() == 1;
        let ss1 = chunk_to_vec(&ss1s[round], 0, ss1s[round].len());
        proof {
            assert(ss1@ =~= ssv[round as int]);
            assert(ss_suffix[0] == ssv[round as int]);
        }
        let step = round_step(
            st,
            k_cur,
            k1,
            bases_ref,
            &lag_bases_1,
            &mut transcript1,
            &mut transcript2,
            &ss1,
        );
        st = step.0;
        let ss2 = step.1;
        proof {
            assert(cur_rounds == pairs.skip(round as int));
            assert(cur_rounds[0].0 == ss1@ && cur_rounds[0].1 == ss2@);
            assert(pairs[round as int] == pairs.skip(round as int)[0]);
            assert(pairs[round as int].1 == ss2@);
            if done {
                assert(rounds_total - round == spec_num_rounds(1, k1 as int));
                assert(round + 1 == rounds_total);
            } else {
                assert(cur_rounds.drop_first() == spec_rounds(
                    st.g0@,
                    st.g1@,
                    st.g2@,
                    st.g3@,
                    st.mask@,
                    st.etas@,
                    k1 as int,
                    k1 as int,
                    spec_lagrange_bases(k1 as int),
                    spec_lagrange_bases(k1 as int),
                    transcript_log(transcript1),
                    transcript_log(transcript2),
                    ss_suffix.drop_first(),
                ));
                assert(ss_suffix.drop_first() =~= ssv.skip(round + 1));
                assert(pairs.skip(round as int).drop_first() =~= pairs.skip(round + 1));
            }
        }
        p_coeffs_ss1.push(ss1);
        p_coeffs_ss2.push(ss2);
        round = round + 1;
    }
    proof {
        assert(rows_view(p_coeffs_ss1@) =~= ssv);
    }
    Proof { p_coeffs_ss1, p_coeffs_ss2 }
}

/// Elementwise comparison of two word vectors.
pub fn vec_eq(a: &Vec<u64>, b: &Vec<u64>) -> (r: bool)
    ensures
        r == (a@ == b@),
{
    if a.len() != b.len() {
        proof {
            assert(a@.len() != b@.len());
        }
        return false;
    }
    let mut i: usize = 0;
    while i < a.len()
        invariant
            i <= a@.len(),
            a@.len() == b@.len(),
            forall|t: int| 0 <= t < i ==> a@[t] == b@[t],
        decreases a@.len() - i,
    {
        if a[i] != b[i] {
            return false;
        }
        i = i + 1;
    }
    proof {
        assert(a@ =~= b@);
    }
    true
}

/// Draw one uniformly random share vector per round: the first round's
/// has k0 entries, every later round's has k1.
pub fn draw_shares(rounds: usize, k0: usize, k1: usize, rng: &mut rand::rngs::ThreadRng) -> (r:
    Vec<Vec<u64>>)
    ensures
        r@.len() == rounds,
        forall|i: int|
            0 <= i < rounds ==> (#[trigger] rows_view(r@)[i]).len() == (
            if i == 0 {
                k0 as int
            } else {
                k1 as int
            }),
        forall|i: int| 0 <= i < rounds ==> all_felts(#[trigger] rows_view(r@)[i]),
    {
    let mut out: Vec<Vec<u64>> = Vec::new();
    let mut r: usize = 0;
    while r < rounds
        invariant
            r <= rounds,
            out@.len() == r,
            forall|i: int|
                0 <= i < r ==> (#[trigger] out@[i])@.len() == (
                if i == 0 {
                    k0 as int
                } else {
                    k1 as int
                }),
            forall|i: int| 0 <= i < r ==> all_felts((#[trigger] out@[i])@),
        decreases rounds - r,
    {
        let len = if r == 0 {
            k0
        } else {
            k1
        };
        let mut row: Vec<u64> = Vec::new();
        let mut i: usize = 0;
        while i < len
            invariant
                i <= len,
                row@.len() == i,
                all_felts(row@),
            decreases len - i,
        {
            row.push(rand_modp(rng));
            i = i + 1;
        }
        out.push(row);
        r = r + 1;
    }
    out
}

/// Generate the proof for the multiplication-gate relation: validate
/// the input shape, draw verifier 1's random shares, and run the
/// folding rounds.  The error names the first shape condition broken;
/// on success the proof passes `proof_valid` against these inputs.
pub fn prove_and_gates(
    _party_id: usize,
    inputs: &Vec<Vec<u64>>,
    ks: &[usize],
    sid: usize,
    rng: &mut rand::rngs::ThreadRng,
) -> (r: Result<Proof, ProveError>)
    ensures
        r is Err <==> spec_validate(rows_view(inputs@), ks@) is Some,
        spec_validate(rows_view(inputs@), ks@) matches Some(e) ==> r == Err::<
            Proof,
            ProveError,
        >(e),
        r matches Ok(proof) ==> proof_valid(
            proof@.0,
            proof@.1,
            rows_view(inputs@),
            ks@,
            sid as int,
        ),
{
    match validate(inputs, ks) {
        Some(e) => Err(e),
        None => {
            let t = inputs[0].len();
            let rounds = num_rounds(t, ks[0], ks[1]);
            let ss1s = draw_shares(rounds, ks[0], ks[1], rng);
            proof {
                assert(shares_shape_ok(
                    rows_view(ss1s@),
                    t as int,
                    ks@[0] as int,
                    ks@[1] as int,
                ));
            }
            Ok(rounds_with_shares(inputs, ks, sid, &ss1s))
        },
    }
}

/// Check a claimed proof against the inputs it is supposed to prove:
/// recompute every round from the claimed first shares and compare.
/// This needs no access to the random source that generated the proof.
pub fn check_and_gates(proof: &Proof, inputs: &Vec<Vec<u64>>, ks: &[usize], sid: usize) -> (r:
    bool)
    ensures
        r == proof_valid(
            rows_view(proof.p_coeffs_ss1@),
            rows_view(proof.p_coeffs_ss2@),
            rows_view(inputs@),
            ks@,
            sid as int,
        ),
{
    let ghost ss1v = rows_view(proof.p_coeffs_ss1@);
    let ghost ss2v = rows_view(proof.p_coeffs_ss2@);
    match validate(inputs, ks) {
        Some(e) => {
            return false;
        },
        None => {},
    }
    let ghost iv = rows_view(inputs@);
    let t = inputs[0].len();
    let k0 = ks[0];
    let k1 = ks[1];
    let rounds = num_rounds(t, k0, k1);
    proof {
        assert(iv[0] == inputs@[0]@);
    }
    if proof.p_coeffs_ss1.len() != rounds {
        proof {
            assert(!shares_shape_ok(ss1v, iv[0].len() as int, ks@[0] as int, ks@[1] as int));
        }
        return false;
    }
    if proof.p_coeffs_ss2.len() != rounds {
        return false;
    }
    let mut r: usize = 0;
    while r < rounds
        invariant
            r <= rounds,
            spec_validate(rows_view(inputs@), ks@) is None,
            iv == rows_view(inputs@),
            iv[0].len() == t,
            t >= 1,
            ks@.len() == 2,
            k0 == ks@[0],
            k1 == ks@[1],
            k0 >= 2,
            k1 >= 2,
            rounds == spec_num_rounds(ceil_div(t as int, k0 as int), k1 as int),
            ss2v == rows_view(proof.p_coeffs_ss2@),
            ss2v.len() == rounds,
            ss1v == rows_view(proof.p_coeffs_ss1@),
            ss1v.len() == rounds,
            forall|i: int|
                0 <= i < r ==> (#[trigger] ss1v[i]).len() == (
                if i == 0 {
                    k0 as int
                } else {
                    k1 as int
                }),
            forall|i: int| 0 <= i < r ==> all_felts(#[trigger] ss1v[i]),
        decreases rounds - r,
    {
        let expected = if r == 0 {
            k0
        } else {
            k1
        };
        let row = &proof.p_coeffs_ss1[r];
        if row.len() != expected {
            proof {
                assert(ss1v[r as int].len() != expected);
                assert(!shares_shape_ok(ss1v, iv[0].len() as int, ks@[0] as int, ks@[1] as int));
            }
            return false;
        }
        let mut i: usize = 0;
        while i < expected
            invariant
                i <= expected,
                spec_validate(rows_view(inputs@), ks@) is None,
                iv == rows_view(inputs@),
                iv[0].len() == t,
                ks@.len() == 2,
                k0 == ks@[0],
                k1 == ks@[1],
                rounds == spec_num_rounds(ceil_div(t as int, k0 as int), k1 as int),
                r < rounds,
                ss1v == rows_view(proof.p_coeffs_ss1@),
                ss1v.len() == rounds,
                ss2v == rows_view(proof.p_coeffs_ss2@),
                ss2v.len() == rounds,
                row@ == ss1v[r as int],
                row@.len() == expected,
                forall|t0: int| 0 <= t0 < i ==> is_felt(#[trigger] row@[t0]),
            decreases expected - i,
        {
            if row[i] >= PR {
                proof {
                    assert(!all_felts(ss1v[r as int]));
                    assert(!shares_shape_ok(
                        ss1v,
                        iv[0].len() as int,
                        ks@[0] as int,
                        ks@[1] as int,
                    ));
                }
                return false;
            }
            i = i + 1;
        }
        proof {
            assert(all_felts(ss1v[r as int]));
        }
        r = r + 1;
    }
    proof {
        assert(shares_shape_ok(ss1v, iv[0].len() as int, ks@[0] as int, ks@[1] as int));
    }
    let recomputed = rounds_with_shares(inputs, ks, sid, &proof.p_coeffs_ss1);
    let ghost pairs = spec_proof_rounds(
        rows_view(inputs@),
        ks@[0] as int,
        ks@[1] as int,
        sid as int,
        ss1v,
    );
    proof {
        assert forall|i: int|
            0 <= i < rounds implies (#[trigger] recomputed.p_coeffs_ss2@[i])@ == pairs[i].1 by {
            assert(rows_view(recomputed.p_coeffs_ss2@)[i] == recomputed.p_coeffs_ss2@[i]@);
        }
    }
    let mut r: usize = 0;
    while r < rounds
        invariant
            r <= rounds,
            spec_validate(rows_view(inputs@), ks@) is None,
            iv == rows_view(inputs@),
            iv[0].len() == t,
            ks@.len() == 2,
            rounds == spec_num_rounds(ceil_div(t as int, ks@[0] as int), ks@[1] as int),
            shares_shape_ok(ss1v, iv[0].len() as int, ks@[0] as int, ks@[1] as int),
            ss1v == rows_view(proof.p_coeffs_ss1@),
            ss1v.len() == rounds,
            ss2v == rows_view(proof.p_coeffs_ss2@),
            ss2v.len() == rounds,
            pairs == spec_proof_rounds(
                rows_view(inputs@),
                ks@[0] as int,
                ks@[1] as int,
                sid as int,
                ss1v,
            ),
            recomputed.p_coeffs_ss2@.len() == rounds,
            forall|i: int|
                0 <= i < rounds ==> (#[trigger] recomputed.p_coeffs_ss2@[i])@ == pairs[i].1,
            forall|i: int| 0 <= i < r ==> (#[trigger] ss2v[i]) == pairs[i].1,
        decreases rounds - r,
    {
        if !vec_eq(&proof.p_coeffs_ss2[r], &recomputed.p_coeffs_ss2[r]) {
            proof {
                assert(ss2v[r as int] == proof.p_coeffs_ss2@[r as int]@);
                assert(ss2v[r as int] != pairs[r as int].1);
            }
            return false;
        }
        proof {
            assert(ss2v[r as int] == proof.p_coeffs_ss2@[r as int]@);
        }
        r = r + 1;
    }
    true
}

/// Sums of residues reduce to field addition of the views.
proof fn lemma_felt_add_sub(c: u64, s1: u64)
    requires
        is_felt(c),
        is_felt(s1),
    ensures
        fadd(s1 as int, fsub(c as int, s1 as int)) == c,
{
    vstd::arithmetic::div_mod::lemma_add_mod_noop_right(s1 as int, c - s1, p());
    lemma_small_mod(c as nat, p() as nat);
}

/// The canonical sum of two coefficient sequences has reduced entries.
proof fn lemma_padd_felts(s1: Seq<u64>, s2: Seq<u64>)
    ensures
        all_felts(spec_padd(s1, s2)),
{
    assert forall|i: int|
        0 <= i < padd_raw(s1, s2).len() implies is_felt(#[trigger] padd_raw(s1, s2)[i]) by {
        vstd::arithmetic::div_mod::lemma_mod_bound(
            coeff_or_zero(s1, i) + coeff_or_zero(s2, i),
            p(),
        );
    }
    crate::poly::lemma_trim_props(padd_raw(s1, s2));
}

/// Every entry of the round recursion carries verifier 1's share of
/// its round, and verifier 2's share is the coefficient-wise
/// difference from the round polynomial, whose entries are reduced.
pub proof fn lemma_rounds_structure(
    g0: Seq<u64>,
    g1: Seq<u64>,
    g2: Seq<u64>,
    g3: Seq<u64>,
    mask: Seq<u64>,
    etas: Seq<u64>,
    k: int,
    k1: int,
    bases: Seq<Seq<u64>>,
    bases1: Seq<Seq<u64>>,
    t1: Seq<Seq<u8>>,
    t2: Seq<Seq<u8>>,
    ss1s: Seq<Seq<u64>>,
)
    requires
        etas.len() >= 1,
        k1 >= 2,
        ss1s.len() >= spec_num_rounds(etas.len() as int, k1),
    ensures
        ({
            let rounds = spec_rounds(g0, g1, g2, g3, mask, etas, k, k1, bases, bases1, t1, t2, ss1s);
            forall|i: int|
                0 <= i < rounds.len() ==> {
                    &&& (#[trigger] rounds[i]).0 == ss1s[i]
                    &&& rounds[i].1 == spec_ss2(rounds[i].2, ss1s[i])
                    &&& all_felts(rounds[i].2)
                }
        }),
    decreases etas.len(),
{
    let rounds = spec_rounds(g0, g1, g2, g3, mask, etas, k, k1, bases, bases1, t1, t2, ss1s);
    lemma_round_step(g0, g1, g2, g3, mask, etas, k, k1, bases, bases1, t1, t2, ss1s);
    let pcoeffs = spec_round_pcoeffs(g0, g1, g2, g3, mask, etas, k, bases);
    lemma_padd_felts(
        spec_gate_accum(
            spec_row_polys(g0, bases, k, etas.len() as int),
            spec_row_polys(g1, bases, k, etas.len() as int),
            spec_row_polys(g2, bases, k, etas.len() as int),
            spec_row_polys(g3, bases, k, etas.len() as int),
            etas,
            etas.len() as int,
        ),
        spec_interpolate(
            bases,
            spec_agg(mask, etas, k, etas.len() as int),
            k,
        ),
    );
    if etas.len() > 1 {
        lemma_div_is_strictly_smaller(etas.len() - 1, k1);
        let ss2 = spec_ss2(pcoeffs, ss1s[0]);
        let t1a = t1.push(label_ss1()).push(be_words(ss1s[0]));
        let t2a = t2.push(label_ss2()).push(be_words(ss2));
        let r = spec_round_r(t1a, t2a);
        let tail = spec_rounds(
            spec_fold_row(spec_row_polys(g0, bases, k, etas.len() as int), r),
            spec_fold_row(spec_row_polys(g1, bases, k, etas.len() as int), r),
            spec_fold_row(spec_row_polys(g2, bases, k, etas.len() as int), r),
            spec_fold_row(spec_row_polys(g3, bases, k, etas.len() as int), r),
            spec_fold_mask(mask, spec_lag_evals(bases, r, k), k, etas.len() as int),
            spec_fold_etas(etas, bases1, k1, r),
            k1,
            k1,
            bases1,
            bases1,
            t1a.push(label_r1()).push(u64_be_bytes(spec_challenge(t1a, label_r1()))),
            t2a.push(label_r2()).push(u64_be_bytes(spec_challenge(t2a, label_r2()))),
            ss1s.drop_first(),
        );
        lemma_rounds_structure(
            spec_fold_row(spec_row_polys(g0, bases, k, etas.len() as int), r),
            spec_fold_row(spec_row_polys(g1, bases, k, etas.len() as int), r),
            spec_fold_row(spec_row_polys(g2, bases, k, etas.len() as int), r),
            spec_fold_row(spec_row_polys(g3, bases, k, etas.len() as int), r),
            spec_fold_mask(mask, spec_lag_evals(bases, r, k), k, etas.len() as int),
            spec_fold_etas(etas, bases1, k1, r),
            k1,
            k1,
            bases1,
            bases1,
            t1a.push(label_r1()).push(u64_be_bytes(spec_challenge(t1a, label_r1()))),
            t2a.push(label_r2()).push(u64_be_bytes(spec_challenge(t2a, label_r2()))),
            ss1s.drop_first(),
        );
        assert(rounds == seq![(ss1s[0], ss2, pcoeffs)] + tail);
        assert forall|i: int|
            0 <= i < rounds.len() implies {
            &&& (#[trigger] rounds[i]).0 == ss1s[i]
            &&& rounds[i].1 == spec_ss2(rounds[i].2, ss1s[i])
            &&& all_felts(rounds[i].2)
        } by {
            if i == 0 {
                assert(rounds[0] == (ss1s[0], ss2, pcoeffs));
            } else {
                assert(rounds[i] == (seq![(ss1s[0], ss2, pcoeffs)] + tail)[i]);
                assert((seq![(ss1s[0], ss2, pcoeffs)] + tail)[i] == tail[i - 1]);
                assert(i < ss1s.len());
                assert(ss1s.drop_first()[i - 1] == ss1s.subrange(1, ss1s.len() as int)[i - 1]);
                assert(ss1s.drop_first()[i - 1] == ss1s[i]);
            }
        }
    }
}

/// The two shares of every round form an additive secret sharing of
/// the round polynomial's coefficients: entry by entry, share 1 plus
/// share 2 is the coefficient, modulo p.  This is checkable from the
/// proof and the inputs alone, without the random source.
pub proof fn lemma_shares_reconstruct(
    ss1v: Seq<Seq<u64>>,
    ss2v: Seq<Seq<u64>>,
    inputs: Seq<Seq<u64>>,
    ks: Seq<usize>,
    sid: int,
    j: int,
    i: int,
)
    requires
        proof_valid(ss1v, ss2v, inputs, ks, sid),
        0 <= j < ss1v.len(),
        0 <= i < ss1v[j].len(),
    ensures
        ({
            let pairs = spec_proof_rounds(inputs, ks[0] as int, ks[1] as int, sid, ss1v);
            fadd(ss1v[j][i] as int, ss2v[j][i] as int) == coeff_or_zero(pairs[j].2, i)
        }),
{
    let k0 = ks[0] as int;
    let k1 = ks[1] as int;
    let t1a = spec_params_log(label_verifier1(), k0, k1, sid);
    let t2a = spec_params_log(label_verifier2(), k0, k1, sid);
    let raw_eta = spec_challenge(t1a, label_eta());
    let etas = spec_eta_powers(
        spec_challenge_field(raw_eta),
        ceil_div(inputs[0].len() as int, k0),
    );
    vstd::arithmetic::div_mod::lemma_div_pos_is_pos(inputs[0].len() - 1, k0);
    lemma_round_step(
        inputs[0],
        inputs[1],
        inputs[2],
        inputs[3],
        inputs[4],
        etas,
        k0,
        k1,
        spec_lagrange_bases(k0),
        spec_lagrange_bases(k1),
        t1a.push(label_eta()).push(u64_be_bytes(raw_eta)),
        t2a,
        ss1v,
    );
    lemma_rounds_structure(
        inputs[0],
        inputs[1],
        inputs[2],
        inputs[3],
        inputs[4],
        etas,
        k0,
        k1,
        spec_lagrange_bases(k0),
        spec_lagrange_bases(k1),
        t1a.push(label_eta()).push(u64_be_bytes(raw_eta)),
        t2a,
        ss1v,
    );
    let pairs = spec_proof_rounds(inputs, k0, k1, sid, ss1v);
    assert(pairs[j].1 == spec_ss2(pairs[j].2, ss1v[j]));
    assert(ss2v[j] == pairs[j].1);
    let c = coeff_or_zero(pairs[j].2, i);
    assert(is_felt(c));
    lemma_felt_add_sub(c, ss1v[j][i]);
}

/// Two proofs generated from the same inputs, schedule, session id
/// and the same injected first shares are identical.
pub proof fn lemma_proof_determined(
    ss1v: Seq<Seq<u64>>,
    ss2a: Seq<Seq<u64>>,
    ss2b: Seq<Seq<u64>>,
    inputs: Seq<Seq<u64>>,
    ks: Seq<usize>,
    sid: int,
)
    requires
        proof_valid(ss1v, ss2a, inputs, ks, sid),
        proof_valid(ss1v, ss2b, inputs, ks, sid),
    ensures
        ss2a == ss2b,
{
    assert(ss2a =~= ss2b);
}

impl Proof {
    /// Verifier 1's share vectors, one per round.
    pub fn share1(&self) -> (r: &Vec<Vec<u64>>)
        ensures
            rows_view(r@) == self@.0,
    {
        &self.p_coeffs_ss1
    }

    /// Verifier 2's share vectors, one per round.
    pub fn share2(&self) -> (r: &Vec<Vec<u64>>)
        ensures
            rows_view(r@) == self@.1,
    {
        &self.p_coeffs_ss2
    }

    /// Whether two proofs hold exactly the same shares.
    pub fn equals(&self, other: &Proof) -> (r: bool)
        ensures
            r == (self@ == other@),
    {
        if self.p_coeffs_ss1.len() != other.p_coeffs_ss1.len() {
            proof {
                assert(self@.0.len() != other@.0.len());
            }
            return false;
        }
        if self.p_coeffs_ss2.len() != other.p_coeffs_ss2.len() {
            proof {
                assert(self@.1.len() != other@.1.len());
            }
            return false;
        }
        let mut i: usize = 0;
        while i < self.p_coeffs_ss1.len()
            invariant
                i <= self@.0.len(),
                self@.0.len() == other@.0.len(),
                forall|t: int| 0 <= t < i ==> (#[trigger] self@.0[t]) == other@.0[t],
            decreases self@.0.len() - i,
        {
            if !vec_eq(&self.p_coeffs_ss1[i], &other.p_coeffs_ss1[i]) {
                proof {
                    assert(self@.0[i as int] == self.p_coeffs_ss1@[i as int]@);
                    assert(other@.0[i as int] == other.p_coeffs_ss1@[i as int]@);
                    assert(self@.0[i as int] != other@.0[i as int]);
                }
                return false;
            }
            proof {
                assert(self@.0[i as int] == self.p_coeffs_ss1@[i as int]@);
                assert(other@.0[i as int] == other.p_coeffs_ss1@[i as int]@);
            }
            i = i + 1;
        }
        let mut i: usize = 0;
        while i < self.p_coeffs_ss2.len()
            invariant
                i <= self@.1.len(),
                self@.1.len() == other@.1.len(),
                self@.0 =~= other@.0,
                forall|t: int| 0 <= t < i ==> (#[trigger] self@.1[t]) == other@.1[t],
            decreases self@.1.len() - i,
        {
            if !vec_eq(&self.p_coeffs_ss2[i], &other.p_coeffs_ss2[i]) {
                proof {
                    assert(self@.1[i as int] == self.p_coeffs_ss2@[i as int]@);
                    assert(other@.1[i as int] == other.p_coeffs_ss2@[i as int]@);
                    assert(self@.1[i as int] != other@.1[i as int]);
                }
                return false;
            }
            proof {
                assert(self@.1[i as int] == self.p_coeffs_ss2@[i as int]@);
                assert(other@.1[i as int] == other.p_coeffs_ss2@[i as int]@);
            }
            i = i + 1;
        }
        proof {
            assert(self@.0 =~= other@.0);
            assert(self@.1 =~= other@.1);
        }
        true
    }
}

/// The engine's round count is the base-k logarithm of the copy
/// count, rounded up: k^rounds covers t copies, and one round fewer
/// would not.
pub proof fn lemma_round_count_is_log(t: int, k: int)
    requires
        t >= 1,
        k >= 2,
    ensures
        ({
            let r = spec_num_rounds(ceil_div(t, k), k);
            &&& r >= 1
            &&& vstd::arithmetic::power::pow(k, r as nat) >= t
            &&& r >= 2 ==> vstd::arithmetic::power::pow(k, (r - 1) as nat) < t
        }),
    decreases t,
{
    vstd::arithmetic::div_mod::lemma_div_pos_is_pos(t - 1, k);
    let s1 = ceil_div(t, k);
    let q = (t - 1) / k;
    vstd::arithmetic::div_mod::lemma_fundamental_div_mod(t - 1, k);
    vstd::arithmetic::div_mod::lemma_mod_bound(t - 1, k);
    assert(k * q <= t - 1);
    assert(t - 1 < k * q + k);
    assert(k * s1 == k * q + k) by {
        vstd::arithmetic::mul::lemma_mul_is_distributive_add(k, q, 1);
        vstd::arithmetic::mul::lemma_mul_basics(k);
    }
    assert(k * (s1 - 1) == k * q) by {
        vstd::arithmetic::mul::lemma_mul_is_distributive_sub(k, s1, 1);
        vstd::arithmetic::mul::lemma_mul_basics(k);
    }
    if s1 <= 1 {
        assert(spec_num_rounds(s1, k) == 1);
        assert(vstd::arithmetic::power::pow(k, 1) == k) by {
            vstd::arithmetic::power::lemma_pow1(k);
        }
        assert(q == 0);
        assert(k * q == 0) by {
            vstd::arithmetic::mul::lemma_mul_basics(k);
        }
        assert(t <= k);
    } else {
        lemma_div_is_strictly_smaller(t - 1, k);
        assert(s1 < t);
        lemma_round_count_is_log(s1, k);
        let rp = spec_num_rounds(ceil_div(s1, k), k);
        let r = spec_num_rounds(s1, k);
        assert(r == 1 + rp);
        let powp = vstd::arithmetic::power::pow(k, rp as nat);
        assert(vstd::arithmetic::power::pow(k, r as nat) == k * powp) by {
            vstd::arithmetic::power::lemma_pow_adds(k, 1, rp as nat);
            vstd::arithmetic::power::lemma_pow1(k);
        }
        assert(k * powp >= k * s1) by {
            vstd::arithmetic::mul::lemma_mul_inequality(s1, powp, k);
            vstd::arithmetic::mul::lemma_mul_is_commutative(s1, k);
            vstd::arithmetic::mul::lemma_mul_is_commutative(powp, k);
        }
        assert(k * s1 >= t);
        if rp >= 2 {
            let pow_prev = vstd::arithmetic::power::pow(k, (rp - 1) as nat);
            assert(pow_prev < s1);
            assert(powp == k * pow_prev) by {
                vstd::arithmetic::power::lemma_pow_adds(k, 1, (rp - 1) as nat);
                vstd::arithmetic::power::lemma_pow1(k);
            }
            assert(k * pow_prev <= k * (s1 - 1)) by {
                vstd::arithmetic::mul::lemma_mul_inequality(pow_prev, s1 - 1, k);
                vstd::arithmetic::mul::lemma_mul_is_commutative(pow_prev, k);
                vstd::arithmetic::mul::lemma_mul_is_commutative(s1 - 1, k);
            }
            assert(k * (s1 - 1) <= t - 1);
            assert(powp < t);
        } else {
            assert(rp == 1);
            assert(vstd::arithmetic::power::pow(k, 1) == k) by {
                vstd::arithmetic::power::lemma_pow1(k);
            }
            assert(q >= 1);
            assert(k * q >= k) by {
                vstd::arithmetic::mul::lemma_mul_inequality(1, q, k);
                vstd::arithmetic::mul::lemma_mul_is_commutative(q, k);
                vstd::arithmetic::mul::lemma_mul_basics(k);
            }
            assert(k < t);
        }
    }
}

} // verus!
