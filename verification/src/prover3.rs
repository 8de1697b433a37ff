//! The multi-round folding prover over the evaluation domain.
//!
//! This variant of the engine never materializes coefficients: each
//! chunk of k values is extended to 2k-1 evaluations with a fixed
//! extension matrix of Lagrange coefficients, the round polynomial is
//! accumulated pointwise as the dot product of the extended left and
//! right vectors, and folding evaluates each chunk at the challenge
//! with a freshly computed row of basis values.  The relation has four
//! logical variables; the eta batching weights are folded into the
//! left vector once, up front.

use crate::encoding::{be_words, u64_be_bytes};
use crate::euclid::{inverse, spec_inverse};
use crate::field::{
    add_modp, dot, fadd, fmul, fsub, inner_productp, is_felt, mul_modp, neg_modp, p, sub_modp, PR,
};
use crate::interpolation::spec_delta;
use crate::poly::{all_felts, coeff_or_zero};
pub use crate::prover::Proof;
pub use crate::prover::ProveError;

use crate::prover::{
    ceil_div, chunk_end, chunk_to_vec, draw_shares, lemma_chunk_bounds, num_rounds, rows_view,
    spec_chunk, spec_draw, spec_num_rounds, spec_params_log, spec_pow_eta, spec_round_r, spec_ss2,
};
use crate::transcript::{
    challenge_to_field, transcript_append_k0, transcript_append_k1, transcript_append_sid,
    transcript_append_ss1, transcript_append_ss2, transcript_challenge_eta,
    transcript_challenge_r1, transcript_challenge_r2, transcript_log, transcript_new_verifier1,
    transcript_new_verifier2,
};
use crate::encoding::words_to_be_bytes;
use crate::transcript::{
    label_eta, label_r1, label_r2, label_ss1, label_ss2, label_verifier1, label_verifier2,
    spec_challenge, spec_challenge_field,
};
use vstd::arithmetic::div_mod::{
    lemma_add_mod_noop, lemma_div_is_strictly_smaller, lemma_small_mod,
};
use vstd::prelude::*;

verus! {

/// The largest accepted compression factor for this variant: a round
/// share has 2k - 1 words here, and its byte encoding must stay
/// within the 32-bit message-length limit of the transcript.
pub const MAX_COMPRESSION: usize = ((u32::MAX as usize) / 8 + 1) / 2;

/// Partial product, over the first j grid points other than i, of the
/// Lagrange coefficient factors inv(i - j') * (x - j'), where the
/// evaluation point x is given as an exact integer offset.
pub open spec fn ext_entry_partial(i: int, x: int, j: int) -> u64
    decreases j,
{
    if j <= 0 {
        1u64
    } else if j - 1 == i {
        ext_entry_partial(i, x, j - 1)
    } else {
        fmul(
            ext_entry_partial(i, x, j - 1) as int,
            fmul(spec_inverse(spec_delta(i, j - 1)) as int, (x - (j - 1)) as int % p()),
        ) as u64
    }
}

/// The extension matrix for n points: row l gives, for each input
/// point i, the Lagrange coefficient carrying evaluation i to the
/// output point n + l.
pub open spec fn spec_ext_bases(n: int) -> Seq<Seq<u64>> {
    Seq::new((n - 1) as nat, |l: int| Seq::new(n as nat, |i: int| ext_entry_partial(i, n + l, n)))
}

/// The row of Lagrange coefficients for evaluating at an arbitrary
/// field point r.
pub open spec fn spec_eval_base(n: int, r: u64) -> Seq<u64> {
    Seq::new(n as nat, |i: int| ext_entry_partial(i, r as int, n))
}

/// Build the extension matrix: (n-1) rows of n Lagrange coefficients,
/// row l extrapolating to the point n + l.
pub fn get_bases(n: u64) -> (res: Vec<Vec<u64>>)
    requires
        1 <= n,
        2 * n < PR,
    ensures
        rows_view(res@) == spec_ext_bases(n as int),
        res@.len() == n - 1,
        forall|l: int| 0 <= l < n - 1 ==> (#[trigger] res@[l])@.len() == n,
        forall|l: int| 0 <= l < n - 1 ==> all_felts((#[trigger] res@[l])@),
{
    let mut result: Vec<Vec<u64>> = Vec::new();
    let end = 2 * n - 1;
    let mut l: u64 = n;
    while l < end
        invariant
            n <= l <= end,
            end == 2 * n - 1,
            2 * n < PR,
            1 <= n,
            result@.len() == l - n,
            forall|t: int|
                0 <= t < l - n ==> (#[trigger] result@[t])@ == Seq::new(
                    n as nat,
                    |i: int| ext_entry_partial(i, n + t, n as int),
                ),
            forall|t: int| 0 <= t < l - n ==> all_felts((#[trigger] result@[t])@),
        decreases end - l,
    {
        let row = evaluate_offsets(n, l);
        proof {
            assert(row@ =~= Seq::new(
                n as nat,
                |i: int| ext_entry_partial(i, n + (l - n), n as int),
            ));
        }
        result.push(row);
        l = l + 1;
    }
    proof {
        assert(rows_view(result@) =~= spec_ext_bases(n as int));
    }
    result
}

/// One row of Lagrange coefficients for an exact integer evaluation
/// point x with n <= x < 2n - 1 (so every numerator is a small
/// positive integer).
fn evaluate_offsets(n: u64, x: u64) -> (res: Vec<u64>)
    requires
        1 <= n,
        2 * n < PR,
        n <= x,
        x < 2 * n,
    ensures
        res@ == Seq::new(n as nat, |i: int| ext_entry_partial(i, x as int, n as int)),
        res@.len() == n,
        all_felts(res@),
{
    let mut res: Vec<u64> = Vec::new();
    let mut i: u64 = 0;
    while i < n
        invariant
            i <= n,
            1 <= n,
            2 * n < PR,
            n <= x < 2 * n,
            res@.len() == i,
            forall|t: int| 0 <= t < i ==> res@[t] == ext_entry_partial(t, x as int, n as int),
            all_felts(res@),
        decreases n - i,
    {
        let mut entry: u64 = 1;
        let mut j: u64 = 0;
        while j < n
            invariant
                j <= n,
                i < n,
                1 <= n,
                2 * n < PR,
                n <= x < 2 * n,
                is_felt(entry),
                entry == ext_entry_partial(i as int, x as int, j as int),
            decreases n - j,
        {
            if j != i {
                let denominator = if i > j {
                    i - j
                } else {
                    neg_modp(j - i)
                };
                proof {
                    if i <= j {
                        vstd::arithmetic::div_mod::lemma_mod_add_multiples_vanish(
                            0 - (j - i) as int,
                            p(),
                        );
                        lemma_small_mod((PR - (j - i)) as nat, p() as nat);
                    }
                    assert(denominator == spec_delta(i as int, j as int));
                    lemma_small_mod((x - j) as nat, p() as nat);
                }
                let numerator = x - j;
                entry = mul_modp(entry, mul_modp(inverse(denominator), numerator));
            }
            j = j + 1;
        }
        res.push(entry);
        i = i + 1;
    }
    res
}

/// One row of Lagrange coefficients for an arbitrary field point r:
/// the numerators are computed as residues of r - j.
pub fn evaluate_base(n: u64, r: u64) -> (res: Vec<u64>)
    requires
        1 <= n,
        2 * n < PR,
        is_felt(r),
    ensures
        res@ == spec_eval_base(n as int, r),
        res@.len() == n,
        all_felts(res@),
{
    let mut res: Vec<u64> = Vec::new();
    let mut i: u64 = 0;
    while i < n
        invariant
            i <= n,
            1 <= n,
            2 * n < PR,
            is_felt(r),
            res@.len() == i,
            forall|t: int| 0 <= t < i ==> res@[t] == ext_entry_partial(t, r as int, n as int),
            all_felts(res@),
        decreases n - i,
    {
        let mut entry: u64 = 1;
        let mut j: u64 = 0;
        while j < n
            invariant
                j <= n,
                i < n,
                1 <= n,
                2 * n < PR,
                is_felt(r),
                is_felt(entry),
                entry == ext_entry_partial(i as int, r as int, j as int),
            decreases n - j,
        {
            if j != i {
                let denominator = if i > j {
                    i - j
                } else {
                    neg_modp(j - i)
                };
                let numerator = if r > j {
                    r - j
                } else {
                    neg_modp(j - r)
                };
                proof {
                    if i <= j {
                        vstd::arithmetic::div_mod::lemma_mod_add_multiples_vanish(
                            0 - (j - i) as int,
                            p(),
                        );
                        lemma_small_mod((PR - (j - i)) as nat, p() as nat);
                    }
                    assert(denominator == spec_delta(i as int, j as int));
                    if r > j {
                        lemma_small_mod((r - j) as nat, p() as nat);
                    } else {
                        vstd::arithmetic::div_mod::lemma_mod_add_multiples_vanish(
                            r as int - j as int,
                            p(),
                        );
                        if j == r {
                            lemma_small_mod(0nat, p() as nat);
                        } else {
                            lemma_small_mod((PR - (j - r)) as nat, p() as nat);
                        }
                    }
                    assert(numerator == (r as int - j as int) % p());
                }
                entry = mul_modp(entry, mul_modp(inverse(denominator), numerator));
            }
            j = j + 1;
        }
        res.push(entry);
        i = i + 1;
    }
    res
}

/// Multiply a matrix by a vector: one reduced dot product per row.
pub fn matrix_mult(matrix: &Vec<Vec<u64>>, input: &Vec<u64>) -> (res: Vec<u64>)
    requires
        forall|i: int| 0 <= i < matrix@.len() ==> (#[trigger] matrix@[i])@.len() == input@.len(),
        forall|i: int| 0 <= i < matrix@.len() ==> all_felts((#[trigger] matrix@[i])@),
        all_felts(input@),
    ensures
        res@.len() == matrix@.len(),
        forall|i: int|
            0 <= i < matrix@.len() ==> res@[i] == (dot((#[trigger] matrix@[i])@, input@)
                % p()) as u64,
        all_felts(res@),
{
    let mut res: Vec<u64> = Vec::new();
    let len = matrix.len();
    let mut i: usize = 0;
    while i < len
        invariant
            i <= len,
            len == matrix@.len(),
            forall|t: int| 0 <= t < len ==> (#[trigger] matrix@[t])@.len() == input@.len(),
            forall|t: int| 0 <= t < len ==> all_felts((#[trigger] matrix@[t])@),
            all_felts(input@),
            res@.len() == i,
            forall|t: int|
                0 <= t < i ==> res@[t] == (dot((#[trigger] matrix@[t])@, input@) % p()) as u64,
            all_felts(res@),
        decreases len - i,
    {
        res.push(inner_productp(&matrix[i], input));
        i = i + 1;
    }
    res
}

/// The shape conditions on this variant's inputs, checked in order;
/// None means the inputs are accepted.  The relation takes four
/// logical variables here, and the doubled working vectors must fit
/// the machine.
pub open spec fn spec_validate3(inputs: Seq<Seq<u64>>, ks: Seq<usize>) -> Option<ProveError> {
    if inputs.len() != 4 {
        Some(ProveError::WrongVariableCount)
    } else if inputs[0].len() == 0 {
        Some(ProveError::EmptyInput)
    } else if exists|l: int| 0 <= l < 4 && (#[trigger] inputs[l]).len() != inputs[0].len() {
        Some(ProveError::RaggedInput)
    } else if exists|l: int| 0 <= l < 4 && !all_felts(#[trigger] inputs[l]) {
        Some(ProveError::UnreducedValue)
    } else if inputs[0].len() > usize::MAX / 2 {
        Some(ProveError::InputTooLong)
    } else if ks.len() != 2 {
        Some(ProveError::BadSchedule)
    } else if ks[0] < 2 || ks[1] < 2 {
        Some(ProveError::CompressionTooSmall)
    } else if ks[0] > MAX_COMPRESSION || ks[1] > MAX_COMPRESSION {
        Some(ProveError::CompressionTooLarge)
    } else {
        None
    }
}

/// The left working vector: the first and third variables interleaved,
/// each copy weighted by the matching power of eta.
pub open spec fn spec_interleave_left(in0: Seq<u64>, in2: Seq<u64>, eta: u64) -> Seq<u64> {
    Seq::new(
        (2 * in0.len()) as nat,
        |t: int|
            if t % 2 == 0 {
                fmul(spec_pow_eta(eta, t / 2) as int, in0[t / 2] as int) as u64
            } else {
                fmul(spec_pow_eta(eta, t / 2) as int, in2[t / 2] as int) as u64
            },
    )
}

/// The right working vector: the second and fourth variables
/// interleaved, unweighted.
pub open spec fn spec_interleave_right(in1: Seq<u64>, in3: Seq<u64>) -> Seq<u64> {
    Seq::new(
        (2 * in1.len()) as nat,
        |t: int|
            if t % 2 == 0 {
                in1[t / 2]
            } else {
                in3[t / 2]
            },
    )
}

/// Chunk i of a vector, zero-padded to exactly k entries.
pub open spec fn spec_chunk_pad(v: Seq<u64>, k: int, s: int, i: int) -> Seq<u64> {
    Seq::new(k as nat, |j: int| coeff_or_zero(spec_chunk(v, k, s, i), j))
}

/// A padded chunk extended to 2k-1 evaluations: the k originals
/// followed by the k-1 extension-matrix rows applied to the chunk.
pub open spec fn spec_extend(chunkpad: Seq<u64>, k: int) -> Seq<u64> {
    Seq::new(
        (2 * k - 1) as nat,
        |t: int|
            if t < k {
                chunkpad[t]
            } else {
                (dot(spec_ext_bases(k)[t - k], chunkpad) % p()) as u64
            },
    )
}

/// Partial pointwise product of the extended left and right chunks at
/// output position t, over the first n chunks.
pub open spec fn pointwise_partial(
    left: Seq<u64>,
    right: Seq<u64>,
    k: int,
    s: int,
    t: int,
    n: int,
) -> int
    decreases n,
{
    if n <= 0 {
        0
    } else {
        pointwise_partial(left, right, k, s, t, n - 1) + spec_extend(
            spec_chunk_pad(left, k, s, n - 1),
            k,
        )[t] * spec_extend(spec_chunk_pad(right, k, s, n - 1), k)[t]
    }
}

/// The 2k-1 evaluations of the round polynomial: at each output
/// position, the chunkwise dot of extended left and right vectors.
pub open spec fn spec_round_evals(left: Seq<u64>, right: Seq<u64>, k: int, s: int) -> Seq<u64> {
    Seq::new(
        (2 * k - 1) as nat,
        |t: int| (pointwise_partial(left, right, k, s, t, s) % p()) as u64,
    )
}

/// A working vector folded for the next round: each padded chunk's dot
/// product with the row of basis values at the challenge.
pub open spec fn spec_fold_vec(v: Seq<u64>, base_row: Seq<u64>, k: int, s: int) -> Seq<u64> {
    Seq::new(s as nat, |i: int| (dot(base_row, spec_chunk_pad(v, k, s, i)) % p()) as u64)
}

/// The rounds of the evaluation-domain protocol, given verifier 1's
/// shares: each entry is (share 1, share 2, round evaluations).
pub open spec fn spec_rounds3(
    left: Seq<u64>,
    right: Seq<u64>,
    k: int,
    k1: int,
    t1_log: Seq<Seq<u8>>,
    t2_log: Seq<Seq<u8>>,
    ss1s: Seq<Seq<u64>>,
) -> Seq<(Seq<u64>, Seq<u64>, Seq<u64>)>
    decreases left.len(),
    when left.len() >= 1 && k >= 2 && k1 >= 2
    via spec_rounds3_decreases
{
    let s = ceil_div(left.len() as int, k);
    let pevals = spec_round_evals(left, right, k, s);
    let ss1 = ss1s[0];
    let ss2 = spec_ss2(pevals, ss1);
    let t1a = t1_log.push(label_ss1()).push(be_words(ss1));
    let t2a = t2_log.push(label_ss2()).push(be_words(ss2));
    if s <= 1 {
        seq![(ss1, ss2, pevals)]
    } else {
        let r = spec_round_r(t1a, t2a);
        let t1b = t1a.push(label_r1()).push(u64_be_bytes(spec_challenge(t1a, label_r1())));
        let t2b = t2a.push(label_r2()).push(u64_be_bytes(spec_challenge(t2a, label_r2())));
        seq![(ss1, ss2, pevals)] + spec_rounds3(
            spec_fold_vec(left, spec_eval_base(k, r), k, s),
            spec_fold_vec(right, spec_eval_base(k, r), k, s),
            k1,
            k1,
            t1b,
            t2b,
            ss1s.drop_first(),
        )
    }
}

#[via_fn]
proof fn spec_rounds3_decreases(
    left: Seq<u64>,
    right: Seq<u64>,
    k: int,
    k1: int,
    t1_log: Seq<Seq<u8>>,
    t2_log: Seq<Seq<u8>>,
    ss1s: Seq<Seq<u64>>,
) {
    if ceil_div(left.len() as int, k) > 1 {
        lemma_div_is_strictly_smaller(left.len() - 1, k);
    }
}

/// The complete round outputs of the evaluation-domain engine for the
/// given inputs, schedule, session id and first shares.
pub open spec fn spec_proof_rounds3(
    inputs: Seq<Seq<u64>>,
    k0: int,
    k1: int,
    sid: int,
    ss1s: Seq<Seq<u64>>,
) -> Seq<(Seq<u64>, Seq<u64>, Seq<u64>)> {
    let t1a = spec_params_log(label_verifier1(), k0, k1, sid);
    let t2a = spec_params_log(label_verifier2(), k0, k1, sid);
    let (raw_eta, t1b) = spec_draw(t1a, label_eta());
    let eta = spec_challenge_field(raw_eta);
    spec_rounds3(
        spec_interleave_left(inputs[0], inputs[2], eta),
        spec_interleave_right(inputs[1], inputs[3]),
        k0,
        k1,
        t1b,
        t2a,
        ss1s,
    )
}

/// The shape verifier 1's shares must have for this variant: one
/// vector of 2k-1 entries per round.
pub open spec fn shares_shape3_ok(ss1s: Seq<Seq<u64>>, t: int, k0: int, k1: int) -> bool {
    let rounds = spec_num_rounds(ceil_div(2 * t, k0), k1);
    &&& ss1s.len() == rounds
    &&& forall|i: int|
        0 <= i < rounds ==> (#[trigger] ss1s[i]).len() == (
        if i == 0 {
            2 * k0 - 1
        } else {
            2 * k1 - 1
        })
    &&& forall|i: int| 0 <= i < rounds ==> all_felts(#[trigger] ss1s[i])
}

/// What it means for a pair of share sequences to be this variant's
/// proof for the given inputs.
pub open spec fn proof_valid3(
    ss1v: Seq<Seq<u64>>,
    ss2v: Seq<Seq<u64>>,
    inputs: Seq<Seq<u64>>,
    ks: Seq<usize>,
    sid: int,
) -> bool {
    let pairs = spec_proof_rounds3(inputs, ks[0] as int, ks[1] as int, sid, ss1v);
    &&& spec_validate3(inputs, ks) is None
    &&& shares_shape3_ok(ss1v, inputs[0].len() as int, ks[0] as int, ks[1] as int)
    &&& ss2v.len() == ss1v.len()
    &&& forall|i: int| 0 <= i < ss1v.len() ==> (#[trigger] ss2v[i]) == pairs[i].1
}

/// Check the shape of this variant's inputs.
pub fn validate3(inputs: &Vec<Vec<u64>>, ks: &[usize]) -> (r: Option<ProveError>)
    ensures
        r == spec_validate3(rows_view(inputs@), ks@),
{
    let ghost iv = rows_view(inputs@);
    if inputs.len() != 4 {
        return Some(ProveError::WrongVariableCount);
    }
    let t = inputs[0].len();
    if t == 0 {
        proof {
            assert(iv[0].len() == 0);
        }
        return Some(ProveError::EmptyInput);
    }
    let mut l: usize = 0;
    while l < 4
        invariant
            l <= 4,
            t >= 1,
            inputs@.len() == 4,
            iv == rows_view(inputs@),
            t == inputs@[0]@.len(),
            forall|t0: int| 0 <= t0 < l ==> (#[trigger] iv[t0]).len() == t,
        decreases 4 - l,
    {
        if inputs[l].len() != t {
            proof {
                assert(iv[l as int] == inputs@[l as int]@);
                assert(iv[0] == inputs@[0]@);
                assert(exists|ll: int|
                    0 <= ll < 4 && (#[trigger] iv[ll]).len() != iv[0].len()) by {
                    assert(iv[l as int].len() != iv[0].len());
                }
            }
            return Some(ProveError::RaggedInput);
        }
        l = l + 1;
    }
    let mut l: usize = 0;
    while l < 4
        invariant
            l <= 4,
            t >= 1,
            inputs@.len() == 4,
            iv == rows_view(inputs@),
            t == inputs@[0]@.len(),
            forall|t0: int| 0 <= t0 < 4 ==> (#[trigger] iv[t0]).len() == t,
            forall|t0: int| 0 <= t0 < l ==> all_felts(#[trigger] iv[t0]),
        decreases 4 - l,
    {
        let row = &inputs[l];
        let mut i: usize = 0;
        while i < t
            invariant
                i <= t,
                l < 4,
                t >= 1,
                inputs@.len() == 4,
                iv == rows_view(inputs@),
                row@ == iv[l as int],
                t == inputs@[0]@.len(),
                t == iv[l as int].len(),
                forall|t0: int| 0 <= t0 < 4 ==> (#[trigger] iv[t0]).len() == t,
                forall|t0: int| 0 <= t0 < i ==> is_felt(#[trigger] row@[t0]),
            decreases t - i,
        {
            if row[i] >= PR {
                proof {
                    assert(!all_felts(iv[l as int])) by {
                        assert(iv[l as int][i as int] == row@[i as int]);
                    }
                    assert(exists|ll: int| 0 <= ll < 4 && !all_felts(#[trigger] iv[ll])) by {
                        assert(!all_felts(iv[l as int]));
                    }
                }
                return Some(ProveError::UnreducedValue);
            }
            i = i + 1;
        }
        proof {
            assert(all_felts(iv[l as int]));
        }
        l = l + 1;
    }
    if t > usize::MAX / 2 {
        return Some(ProveError::InputTooLong);
    }
    if ks.len() != 2 {
        return Some(ProveError::BadSchedule);
    }
    if ks[0] < 2 || ks[1] < 2 {
        return Some(ProveError::CompressionTooSmall);
    }
    if ks[0] > MAX_COMPRESSION || ks[1] > MAX_COMPRESSION {
        return Some(ProveError::CompressionTooLarge);
    }
    None
}

/// Interleave two variables into one working vector, each copy
/// weighted by the matching power of eta.
fn interleave_left(in0: &Vec<u64>, in2: &Vec<u64>, eta: u64) -> (res: Vec<u64>)
    requires
        in0@.len() == in2@.len(),
        in0@.len() <= usize::MAX / 2,
        all_felts(in0@),
        all_felts(in2@),
        is_felt(eta),
    ensures
        res@ == spec_interleave_left(in0@, in2@, eta),
        res@.len() == 2 * in0@.len(),
        all_felts(res@),
{
    let t = in0.len();
    let mut out: Vec<u64> = Vec::new();
    let mut eta_power: u64 = 1;
    let mut i: usize = 0;
    while i < t
        invariant
            i <= t,
            t == in0@.len(),
            t == in2@.len(),
            t <= usize::MAX / 2,
            all_felts(in0@),
            all_felts(in2@),
            is_felt(eta),
            is_felt(eta_power),
            eta_power == spec_pow_eta(eta, i as int),
            out@.len() == 2 * i,
            forall|m: int|
                0 <= m < i ==> out@[2 * m] == fmul(
                    spec_pow_eta(eta, m) as int,
                    in0@[m] as int,
                ) as u64,
            forall|m: int|
                0 <= m < i ==> out@[2 * m + 1] == fmul(
                    spec_pow_eta(eta, m) as int,
                    in2@[m] as int,
                ) as u64,
            all_felts(out@),
        decreases t - i,
    {
        out.push(mul_modp(eta_power, in0[i]));
        out.push(mul_modp(eta_power, in2[i]));
        eta_power = mul_modp(eta_power, eta);
        i = i + 1;
    }
    proof {
        assert(out@ =~= spec_interleave_left(in0@, in2@, eta)) by {
            assert forall|t0: int|
                0 <= t0 < 2 * t implies out@[t0] == spec_interleave_left(in0@, in2@, eta)[t0] by {
                if t0 % 2 == 0 {
                    assert(out@[2 * (t0 / 2)] == fmul(
                        spec_pow_eta(eta, t0 / 2) as int,
                        in0@[t0 / 2] as int,
                    ) as u64);
                } else {
                    assert(out@[2 * (t0 / 2) + 1] == fmul(
                        spec_pow_eta(eta, t0 / 2) as int,
                        in2@[t0 / 2] as int,
                    ) as u64);
                }
            }
        }
    }
    out
}

/// Interleave two variables into one working vector, unweighted.
fn interleave_right(in1: &Vec<u64>, in3: &Vec<u64>) -> (res: Vec<u64>)
    requires
        in1@.len() == in3@.len(),
        in1@.len() <= usize::MAX / 2,
        all_felts(in1@),
        all_felts(in3@),
    ensures
        res@ == spec_interleave_right(in1@, in3@),
        res@.len() == 2 * in1@.len(),
        all_felts(res@),
{
    let t = in1.len();
    let mut out: Vec<u64> = Vec::new();
    let mut i: usize = 0;
    while i < t
        invariant
            i <= t,
            t == in1@.len(),
            t == in3@.len(),
            t <= usize::MAX / 2,
            all_felts(in1@),
            all_felts(in3@),
            out@.len() == 2 * i,
            forall|m: int| 0 <= m < i ==> out@[2 * m] == in1@[m],
            forall|m: int| 0 <= m < i ==> out@[2 * m + 1] == in3@[m],
            all_felts(out@),
        decreases t - i,
    {
        out.push(in1[i]);
        out.push(in3[i]);
        i = i + 1;
    }
    proof {
        assert(out@ =~= spec_interleave_right(in1@, in3@)) by {
            assert forall|t0: int|
                0 <= t0 < 2 * t implies out@[t0] == spec_interleave_right(in1@, in3@)[t0] by {
                if t0 % 2 == 0 {
                    assert(out@[2 * (t0 / 2)] == in1@[t0 / 2]);
                } else {
                    assert(out@[2 * (t0 / 2) + 1] == in3@[t0 / 2]);
                }
            }
        }
    }
    out
}

/// Copy chunk i of a vector and zero-pad it to exactly k entries.
fn chunk_pad(v: &Vec<u64>, k: usize, s: usize, i: usize) -> (res: Vec<u64>)
    requires
        k >= 1,
        v@.len() >= 1,
        s == ceil_div(v@.len() as int, k as int),
        i < s,
        all_felts(v@),
    ensures
        res@ == spec_chunk_pad(v@, k as int, s as int, i as int),
        res@.len() == k,
        all_felts(res@),
{
    proof {
        lemma_chunk_bounds(v@.len() as int, k as int, s as int, i as int);
    }
    let v_len = v.len();
    let cur = i * k;
    let end = if i == s - 1 {
        v_len
    } else {
        cur + k
    };
    let mut out: Vec<u64> = Vec::new();
    let mut j: usize = 0;
    while j < k
        invariant
            j <= k,
            k >= 1,
            v_len == v@.len(),
            v@.len() >= 1,
            s == ceil_div(v@.len() as int, k as int),
            i < s,
            cur == i * k,
            end == chunk_end(v@.len() as int, k as int, s as int, i as int),
            cur < end <= v_len,
            end - cur <= k,
            all_felts(v@),
            out@.len() == j,
            forall|t0: int|
                0 <= t0 < j ==> out@[t0] == coeff_or_zero(
                    spec_chunk(v@, k as int, s as int, i as int),
                    t0,
                ),
            all_felts(out@),
        decreases k - j,
    {
        let val = if j < end - cur {
            v[cur + j]
        } else {
            0
        };
        proof {
            if j < end - cur {
                assert(spec_chunk(v@, k as int, s as int, i as int)[j as int] == v@[cur + j]);
            }
        }
        out.push(val);
        j = j + 1;
    }
    proof {
        assert(out@ =~= spec_chunk_pad(v@, k as int, s as int, i as int));
    }
    out
}

/// Extend a padded chunk to 2k-1 evaluations with the extension
/// matrix.
fn extend_chunk(chunk: Vec<u64>, bases: &Vec<Vec<u64>>, k: usize) -> (res: Vec<u64>)
    requires
        k >= 1,
        2 * k <= usize::MAX,
        chunk@.len() == k,
        all_felts(chunk@),
        rows_view(bases@) == spec_ext_bases(k as int),
        bases@.len() == k - 1,
        forall|l: int| 0 <= l < k - 1 ==> (#[trigger] bases@[l])@.len() == k,
        forall|l: int| 0 <= l < k - 1 ==> all_felts((#[trigger] bases@[l])@),
    ensures
        res@ == spec_extend(chunk@, k as int),
        res@.len() == 2 * k - 1,
        all_felts(res@),
{
    let ghost cv = chunk@;
    let evals = matrix_mult(bases, &chunk);
    let mut out = chunk;
    let mut l: usize = 0;
    while l < evals.len()
        invariant
            l <= evals@.len(),
            evals@.len() == k - 1,
            out@.len() == k + l,
            out@.subrange(0, k as int) == cv,
            forall|t0: int| 0 <= t0 < l ==> out@[k + t0] == evals@[t0],
            forall|t0: int|
                0 <= t0 < k - 1 ==> evals@[t0] == (dot((#[trigger] bases@[t0])@, cv)
                    % p()) as u64,
            all_felts(out@),
            all_felts(evals@),
        decreases evals@.len() - l,
    {
        out.push(evals[l]);
        proof {
            assert(out@.subrange(0, k as int) =~= cv);
        }
        l = l + 1;
    }
    proof {
        assert(out@ =~= spec_extend(cv, k as int)) by {
            assert forall|t0: int|
                0 <= t0 < 2 * k - 1 implies out@[t0] == spec_extend(cv, k as int)[t0] by {
                if t0 < k {
                    assert(out@.subrange(0, k as int)[t0] == out@[t0]);
                } else {
                    assert(out@[t0] == evals@[t0 - k]);
                    assert(rows_view(bases@)[t0 - k] == bases@[t0 - k]@);
                    assert(spec_ext_bases(k as int)[t0 - k] == rows_view(bases@)[t0 - k]);
                }
            }
        }
    }
    out
}

/// The accumulator entry for output position t after the first i
/// chunks, plus chunk i's term once position t has been visited.
pub open spec fn pe_frame(
    left: Seq<u64>,
    right: Seq<u64>,
    k: int,
    s: int,
    t: int,
    i: int,
    cols: int,
) -> u64 {
    ((pointwise_partial(left, right, k, s, t, i) + (
    if 0 <= t < cols {
        spec_extend(spec_chunk_pad(left, k, s, i), k)[t] * spec_extend(
            spec_chunk_pad(right, k, s, i),
            k,
        )[t]
    } else {
        0
    })) % p()) as u64
}

/// The 2k-1 evaluations of the round polynomial: every chunk is
/// extended and multiplied pointwise against its partner, and the
/// products accumulate per output position.
fn round_evals(
    left: &Vec<u64>,
    right: &Vec<u64>,
    bases: &Vec<Vec<u64>>,
    k: usize,
    s: usize,
) -> (res: Vec<u64>)
    requires
        k >= 1,
        2 * k <= usize::MAX,
        left@.len() == right@.len(),
        left@.len() >= 1,
        s == ceil_div(left@.len() as int, k as int),
        all_felts(left@),
        all_felts(right@),
        rows_view(bases@) == spec_ext_bases(k as int),
        bases@.len() == k - 1,
        forall|l: int| 0 <= l < k - 1 ==> (#[trigger] bases@[l])@.len() == k,
        forall|l: int| 0 <= l < k - 1 ==> all_felts((#[trigger] bases@[l])@),
    ensures
        res@ == spec_round_evals(left@, right@, k as int, s as int),
        res@.len() == 2 * k - 1,
        all_felts(res@),
{
    let ghost lv = left@;
    let ghost rv = right@;
    let width = 2 * k - 1;
    let mut pe: Vec<u64> = Vec::new();
    let mut t: usize = 0;
    while t < width
        invariant
            t <= width,
            pe@.len() == t,
            forall|t0: int| 0 <= t0 < t ==> pe@[t0] == 0,
        decreases width - t,
    {
        pe.push(0);
        t = t + 1;
    }
    proof {
        lemma_small_mod(0nat, p() as nat);
    }
    let mut i: usize = 0;
    while i < s
        invariant
            i <= s,
            k >= 1,
            width == 2 * k - 1,
            2 * k <= usize::MAX,
            lv == left@,
            rv == right@,
            lv.len() == rv.len(),
            lv.len() >= 1,
            s == ceil_div(lv.len() as int, k as int),
            all_felts(lv),
            all_felts(rv),
            rows_view(bases@) == spec_ext_bases(k as int),
            bases@.len() == k - 1,
            forall|l: int| 0 <= l < k - 1 ==> (#[trigger] bases@[l])@.len() == k,
            forall|l: int| 0 <= l < k - 1 ==> all_felts((#[trigger] bases@[l])@),
            pe@.len() == width,
            all_felts(pe@),
            forall|t0: int|
                0 <= t0 < width ==> pe@[t0] == (pointwise_partial(
                    lv,
                    rv,
                    k as int,
                    s as int,
                    t0,
                    i as int,
                ) % p()) as u64,
        decreases s - i,
    {
        let la = extend_chunk(chunk_pad(left, k, s, i), bases, k);
        let ra = extend_chunk(chunk_pad(right, k, s, i), bases, k);
        let mut j: usize = 0;
        while j < width
            invariant
                j <= width,
                i < s,
                k >= 1,
                width == 2 * k - 1,
                lv == left@,
                rv == right@,
                s == ceil_div(lv.len() as int, k as int),
                la@ == spec_extend(spec_chunk_pad(lv, k as int, s as int, i as int), k as int),
                ra@ == spec_extend(spec_chunk_pad(rv, k as int, s as int, i as int), k as int),
                la@.len() == width,
                ra@.len() == width,
                all_felts(la@),
                all_felts(ra@),
                pe@.len() == width,
                all_felts(pe@),
                forall|t0: int|
                    0 <= t0 < width ==> pe@[t0] == pe_frame(
                        lv,
                        rv,
                        k as int,
                        s as int,
                        t0,
                        i as int,
                        j as int,
                    ),
            decreases width - j,
        {
            let ghost partial = pointwise_partial(lv, rv, k as int, s as int, j as int, i as int);
            let ghost term = la@[j as int] * ra@[j as int];
            proof {
                assert((partial % p() + term % p()) % p() == (partial + term) % p()) by {
                    lemma_add_mod_noop(partial, term, p());
                }
            }
            let updated = add_modp(pe[j], mul_modp(la[j], ra[j]));
            pe[j] = updated;
            proof {
                assert forall|t0: int|
                    0 <= t0 < width implies pe@[t0] == pe_frame(
                    lv,
                    rv,
                    k as int,
                    s as int,
                    t0,
                    i as int,
                    j + 1,
                ) by {}
            }
            j = j + 1;
        }
        proof {
            assert forall|t0: int|
                0 <= t0 < width implies pe@[t0] == (pointwise_partial(
                lv,
                rv,
                k as int,
                s as int,
                t0,
                i + 1,
            ) % p()) as u64 by {
                assert(pointwise_partial(lv, rv, k as int, s as int, t0, i + 1)
                    == pointwise_partial(lv, rv, k as int, s as int, t0, i as int) + spec_extend(
                    spec_chunk_pad(lv, k as int, s as int, i as int),
                    k as int,
                )[t0] * spec_extend(spec_chunk_pad(rv, k as int, s as int, i as int), k as int)[t0]);
            }
        }
        i = i + 1;
    }
    proof {
        assert(pe@ =~= spec_round_evals(lv, rv, k as int, s as int));
    }
    pe
}

/// Verifier 2's share for this variant: the round evaluations minus
/// verifier 1's share, entry by entry.
fn sub_shares(pe: &Vec<u64>, ss1: &Vec<u64>) -> (res: Vec<u64>)
    requires
        all_felts(pe@),
        all_felts(ss1@),
    ensures
        res@ == spec_ss2(pe@, ss1@),
        res@.len() == ss1@.len(),
        all_felts(res@),
{
    let mut out: Vec<u64> = Vec::new();
    let mut i: usize = 0;
    while i < ss1.len()
        invariant
            i <= ss1@.len(),
            all_felts(pe@),
            all_felts(ss1@),
            out@.len() == i,
            forall|t0: int|
                0 <= t0 < i ==> out@[t0] == fsub(
                    coeff_or_zero(pe@, t0) as int,
                    ss1@[t0] as int,
                ) as u64,
            all_felts(out@),
        decreases ss1@.len() - i,
    {
        let c = if i < pe.len() {
            pe[i]
        } else {
            0
        };
        out.push(sub_modp(c, ss1[i]));
        i = i + 1;
    }
    proof {
        assert(out@ =~= spec_ss2(pe@, ss1@));
    }
    out
}

/// Fold a working vector for the next round: each padded chunk's dot
/// product with the challenge basis row.
fn fold_vec(v: &Vec<u64>, base_row: &Vec<u64>, k: usize, s: usize) -> (res: Vec<u64>)
    requires
        k >= 1,
        v@.len() >= 1,
        s == ceil_div(v@.len() as int, k as int),
        base_row@.len() == k,
        all_felts(v@),
        all_felts(base_row@),
    ensures
        res@ == spec_fold_vec(v@, base_row@, k as int, s as int),
        res@.len() == s,
        all_felts(res@),
{
    let mut out: Vec<u64> = Vec::new();
    let mut i: usize = 0;
    while i < s
        invariant
            i <= s,
            k >= 1,
            v@.len() >= 1,
            s == ceil_div(v@.len() as int, k as int),
            base_row@.len() == k,
            all_felts(v@),
            all_felts(base_row@),
            out@.len() == i,
            forall|t0: int|
                0 <= t0 < i ==> out@[t0] == (dot(
                    base_row@,
                    spec_chunk_pad(v@, k as int, s as int, t0),
                ) % p()) as u64,
            all_felts(out@),
        decreases s - i,
    {
        let padded = chunk_pad(v, k, s, i);
        out.push(inner_productp(base_row, &padded));
        i = i + 1;
    }
    proof {
        assert(out@ =~= spec_fold_vec(v@, base_row@, k as int, s as int));
    }
    out
}

/// One unfolding of this variant's round recursion.
proof fn lemma_round_step3(
    left: Seq<u64>,
    right: Seq<u64>,
    k: int,
    k1: int,
    t1: Seq<Seq<u8>>,
    t2: Seq<Seq<u8>>,
    ss1s: Seq<Seq<u64>>,
)
    requires
        left.len() >= 1,
        k >= 2,
        k1 >= 2,
    ensures
        ({
            let s = ceil_div(left.len() as int, k);
            let rounds = spec_rounds3(left, right, k, k1, t1, t2, ss1s);
            let pevals = spec_round_evals(left, right, k, s);
            let ss2 = spec_ss2(pevals, ss1s[0]);
            let t1a = t1.push(label_ss1()).push(be_words(ss1s[0]));
            let t2a = t2.push(label_ss2()).push(be_words(ss2));
            let r = spec_round_r(t1a, t2a);
            &&& rounds.len() == spec_num_rounds(s, k1)
            &&& rounds[0] == (ss1s[0], ss2, pevals)
            &&& (s > 1 ==> rounds.drop_first() == spec_rounds3(
                spec_fold_vec(left, spec_eval_base(k, r), k, s),
                spec_fold_vec(right, spec_eval_base(k, r), k, s),
                k1,
                k1,
                t1a.push(label_r1()).push(u64_be_bytes(spec_challenge(t1a, label_r1()))),
                t2a.push(label_r2()).push(u64_be_bytes(spec_challenge(t2a, label_r2()))),
                ss1s.drop_first(),
            ))
            &&& (s <= 1 ==> rounds.len() == 1)
        }),
    decreases left.len(),
{
    let s = ceil_div(left.len() as int, k);
    if s > 1 {
        lemma_div_is_strictly_smaller(left.len() - 1, k);
        let pevals = spec_round_evals(left, right, k, s);
        let ss2 = spec_ss2(pevals, ss1s[0]);
        let t1a = t1.push(label_ss1()).push(be_words(ss1s[0]));
        let t2a = t2.push(label_ss2()).push(be_words(ss2));
        let r = spec_round_r(t1a, t2a);
        lemma_round_step3(
            spec_fold_vec(left, spec_eval_base(k, r), k, s),
            spec_fold_vec(right, spec_eval_base(k, r), k, s),
            k1,
            k1,
            t1a.push(label_r1()).push(u64_be_bytes(spec_challenge(t1a, label_r1()))),
            t2a.push(label_r2()).push(u64_be_bytes(spec_challenge(t2a, label_r2()))),
            ss1s.drop_first(),
        );
    }
}

/// Run the rounds of the evaluation-domain protocol with verifier 1's
/// shares supplied from outside.
#[verifier::rlimit(100)]
pub fn rounds_with_shares3(
    inputs: &Vec<Vec<u64>>,
    ks: &[usize],
    sid: usize,
    ss1s: &Vec<Vec<u64>>,
) -> (res: Proof)
    requires
        spec_validate3(rows_view(inputs@), ks@) is None,
        shares_shape3_ok(
            rows_view(ss1s@),
            inputs@[0]@.len() as int,
            ks@[0] as int,
            ks@[1] as int,
        ),
    ensures
        ({
            let pairs = spec_proof_rounds3(
                rows_view(inputs@),
                ks@[0] as int,
                ks@[1] as int,
                sid as int,
                rows_view(ss1s@),
            );
            &&& res@.0 == rows_view(ss1s@)
            &&& res@.1.len() == pairs.len()
            &&& res@.0.len() == pairs.len()
            &&& forall|i: int| 0 <= i < pairs.len() ==> (#[trigger] res@.1[i]) == pairs[i].1
            &&& forall|i: int| 0 <= i < res@.1.len() ==> all_felts(#[trigger] res@.1[i])
        }),
{
    let ghost iv = rows_view(inputs@);
    let ghost ssv = rows_view(ss1s@);
    let t = inputs[0].len();
    let k0 = ks[0];
    let k1 = ks[1];
    proof {
        assert(iv.len() == 4);
        assert(forall|l: int| 0 <= l < 4 ==> (#[trigger] iv[l]).len() == t);
        assert(forall|l: int| 0 <= l < 4 ==> all_felts(#[trigger] iv[l]));
        assert(iv[0] == inputs@[0]@ && iv[1] == inputs@[1]@ && iv[2] == inputs@[2]@ && iv[3]
            == inputs@[3]@);
    }
    let mut transcript1 = transcript_new_verifier1();
    let mut transcript2 = transcript_new_verifier2();
    transcript_append_k0(&mut transcript1, k0 as u64);
    transcript_append_k1(&mut transcript1, k1 as u64);
    transcript_append_sid(&mut transcript1, sid as u64);
    transcript_append_k0(&mut transcript2, k0 as u64);
    transcript_append_k1(&mut transcript2, k1 as u64);
    transcript_append_sid(&mut transcript2, sid as u64);
    proof {
        assert(transcript_log(transcript1) =~= spec_params_log(
            label_verifier1(),
            k0 as int,
            k1 as int,
            sid as int,
        ));
        assert(transcript_log(transcript2) =~= spec_params_log(
            label_verifier2(),
            k0 as int,
            k1 as int,
            sid as int,
        ));
    }
    let raw_eta = transcript_challenge_eta(&mut transcript1);
    let eta = challenge_to_field(raw_eta);
    let mut left = interleave_left(&inputs[0], &inputs[2], eta);
    let mut right = interleave_right(&inputs[1], &inputs[3]);
    let base_0 = get_bases(k0 as u64);
    let base_1 = get_bases(k1 as u64);
    let rounds_total = num_rounds(2 * t, k0, k1);
    let ghost pairs = spec_proof_rounds3(iv, k0 as int, k1 as int, sid as int, ssv);
    proof {
        vstd::arithmetic::div_mod::lemma_div_pos_is_pos(2 * t - 1, k0 as int);
        lemma_round_step3(
            left@,
            right@,
            k0 as int,
            k1 as int,
            transcript_log(transcript1),
            transcript_log(transcript2),
            ssv,
        );
        assert(pairs == spec_rounds3(
            left@,
            right@,
            k0 as int,
            k1 as int,
            transcript_log(transcript1),
            transcript_log(transcript2),
            ssv,
        ));
        assert(pairs.len() == rounds_total);
        assert(ssv.skip(0) =~= ssv);
        assert(pairs.skip(0) =~= pairs);
    }
    let mut p_coeffs_ss1: Vec<Vec<u64>> = Vec::new();
    let mut p_coeffs_ss2: Vec<Vec<u64>> = Vec::new();
    let mut round: usize = 0;
    while round < rounds_total
        invariant
            k0 >= 2,
            k1 >= 2,
            2 * (k0 as int) < PR,
            2 * (k1 as int) < PR,
            k0 <= usize::MAX / 2 - 2,
            k1 <= usize::MAX / 2 - 2,
            t >= 1,
            round <= rounds_total,
            pairs == spec_proof_rounds3(iv, k0 as int, k1 as int, sid as int, ssv),
            pairs.len() == rounds_total,
            ssv == rows_view(ss1s@),
            ssv.len() == rounds_total,
            forall|i: int| 0 <= i < rounds_total ==> all_felts(#[trigger] ssv[i]),
            forall|i: int|
                0 <= i < rounds_total ==> (#[trigger] ssv[i]).len() == (
                if i == 0 {
                    2 * (k0 as int) - 1
                } else {
                    2 * (k1 as int) - 1
                }),
            k0 <= MAX_COMPRESSION,
            k1 <= MAX_COMPRESSION,
            left@.len() == right@.len(),
            left@.len() >= 1,
            all_felts(left@),
            all_felts(right@),
            rows_view(base_0@) == spec_ext_bases(k0 as int),
            base_0@.len() == k0 - 1,
            forall|l: int| 0 <= l < k0 - 1 ==> (#[trigger] base_0@[l])@.len() == k0,
            forall|l: int| 0 <= l < k0 - 1 ==> all_felts((#[trigger] base_0@[l])@),
            rows_view(base_1@) == spec_ext_bases(k1 as int),
            base_1@.len() == k1 - 1,
            forall|l: int| 0 <= l < k1 - 1 ==> (#[trigger] base_1@[l])@.len() == k1,
            forall|l: int| 0 <= l < k1 - 1 ==> all_felts((#[trigger] base_1@[l])@),
            p_coeffs_ss1@.len() == round,
            p_coeffs_ss2@.len() == round,
            forall|i: int| 0 <= i < round ==> (#[trigger] p_coeffs_ss1@[i])@ == ssv[i],
            forall|i: int| 0 <= i < round ==> (#[trigger] p_coeffs_ss2@[i])@ == pairs[i].1,
            forall|i: int| 0 <= i < round ==> all_felts((#[trigger] p_coeffs_ss2@[i])@),
            round < rounds_total ==> rounds_total - round == spec_num_rounds(
                ceil_div(
                    left@.len() as int,
                    if round == 0 {
                        k0 as int
                    } else {
                        k1 as int
                    },
                ),
                k1 as int,
            ),
            round < rounds_total ==> spec_rounds3(
                left@,
                right@,
                if round == 0 {
                    k0 as int
                } else {
                    k1 as int
                },
                k1 as int,
                transcript_log(transcript1),
                transcript_log(transcript2),
                ssv.skip(round as int),
            ) == pairs.skip(round as int),
        decreases rounds_total - round,
    {
        let k_cur = if round == 0 {
            k0
        } else {
            k1
        };
        let bases_ref = if round == 0 {
            &base_0
        } else {
            &base_1
        };
        let len_cur = left.len();
        let s = (len_cur - 1) / k_cur + 1;
        let ghost t1_pre = transcript_log(transcript1);
        let ghost t2_pre = transcript_log(transcript2);
        let ghost ss_suffix = ssv.skip(round as int);
        let ghost cur_rounds = spec_rounds3(
            left@,
            right@,
            k_cur as int,
            k1 as int,
            t1_pre,
            t2_pre,
            ss_suffix,
        );
        proof {
            lemma_round_step3(
                left@,
                right@,
                k_cur as int,
                k1 as int,
                t1_pre,
                t2_pre,
                ss_suffix,
            );
        }
        let pe = round_evals(&left, &right, bases_ref, k_cur, s);
        let ss1 = chunk_to_vec(&ss1s[round], 0, ss1s[round].len());
        proof {
            assert(ss1@ =~= ssv[round as int]);
            assert(ss_suffix[0] == ssv[round as int]);
        }
        let ss2 = sub_shares(&pe, &ss1);
        let ss1_bytes = words_to_be_bytes(&ss1);
        transcript_append_ss1(&mut transcript1, ss1_bytes.as_slice());
        let ss2_bytes = words_to_be_bytes(&ss2);
        transcript_append_ss2(&mut transcript2, ss2_bytes.as_slice());
        proof {
            assert(transcript_log(transcript1) == t1_pre.push(label_ss1()).push(
                be_words(ss1@),
            ));
            assert(transcript_log(transcript2) == t2_pre.push(label_ss2()).push(
                be_words(ss2@),
            ));
            assert(cur_rounds == pairs.skip(round as int));
            assert(cur_rounds[0] == (ss1@, ss2@, pe@));
            assert(pairs[round as int] == pairs.skip(round as int)[0]);
            assert(pairs[round as int].1 == ss2@);
        }
        p_coeffs_ss1.push(ss1);
        p_coeffs_ss2.push(ss2);
        if s == 1 {
            proof {
                assert(rounds_total - round == spec_num_rounds(1, k1 as int));
                assert(round + 1 == rounds_total);
            }
            round = round + 1;
        } else {
            let raw1 = transcript_challenge_r1(&mut transcript1);
            let raw2 = transcript_challenge_r2(&mut transcript2);
            let r1 = challenge_to_field(raw1);
            let r2 = challenge_to_field(raw2);
            let r = add_modp(r1, r2);
            proof {
                assert(r == spec_round_r(
                    t1_pre.push(label_ss1()).push(be_words(ss1@)),
                    t2_pre.push(label_ss2()).push(be_words(ss2@)),
                ));
            }
            let eval_r_base = evaluate_base(k_cur as u64, r);
            let new_left = fold_vec(&left, &eval_r_base, k_cur, s);
            let new_right = fold_vec(&right, &eval_r_base, k_cur, s);
            proof {
                assert(cur_rounds.drop_first() == spec_rounds3(
                    new_left@,
                    new_right@,
                    k1 as int,
                    k1 as int,
                    transcript_log(transcript1),
                    transcript_log(transcript2),
                    ss_suffix.drop_first(),
                ));
                assert(ss_suffix.drop_first() =~= ssv.skip(round + 1));
                assert(pairs.skip(round as int).drop_first() =~= pairs.skip(round + 1));
                lemma_div_is_strictly_smaller(len_cur - 1, k_cur as int);
                vstd::arithmetic::div_mod::lemma_div_pos_is_pos(len_cur - 1, k_cur as int);
            }
            left = new_left;
            right = new_right;
            round = round + 1;
        }
    }
    proof {
        assert(rows_view(p_coeffs_ss1@) =~= ssv);
    }
    Proof { p_coeffs_ss1, p_coeffs_ss2 }
}

/// Generate the evaluation-domain proof: validate the input shape,
/// draw verifier 1's shares, and run the rounds.
pub fn prove_and_gates(
    _party_id: usize,
    inputs: &Vec<Vec<u64>>,
    ks: &[usize],
    sid: usize,
    rng: &mut rand::rngs::ThreadRng,
) -> (r: Result<Proof, ProveError>)
    ensures
        r is Err <==> spec_validate3(rows_view(inputs@), ks@) is Some,
        spec_validate3(rows_view(inputs@), ks@) matches Some(e) ==> r == Err::<
            Proof,
            ProveError,
        >(e),
        r matches Ok(proof) ==> proof_valid3(
            proof@.0,
            proof@.1,
            rows_view(inputs@),
            ks@,
            sid as int,
        ),
{
    match validate3(inputs, ks) {
        Some(e) => Err(e),
        None => {
            let t = inputs[0].len();
            let rounds = num_rounds(2 * t, ks[0], ks[1]);
            let ss1s = draw_shares(rounds, 2 * ks[0] - 1, 2 * ks[1] - 1, rng);
            proof {
                assert(shares_shape3_ok(
                    rows_view(ss1s@),
                    t as int,
                    ks@[0] as int,
                    ks@[1] as int,
                ));
            }
            Ok(rounds_with_shares3(inputs, ks, sid, &ss1s))
        },
    }
}

/// Every entry of this variant's round recursion carries verifier 1's
/// share of its round, and verifier 2's share is the pointwise
/// difference from the round evaluations, whose entries are reduced.
pub proof fn lemma_rounds3_structure(
    left: Seq<u64>,
    right: Seq<u64>,
    k: int,
    k1: int,
    t1: Seq<Seq<u8>>,
    t2: Seq<Seq<u8>>,
    ss1s: Seq<Seq<u64>>,
)
    requires
        left.len() >= 1,
        k >= 2,
        k1 >= 2,
        ss1s.len() >= spec_num_rounds(ceil_div(left.len() as int, k), k1),
    ensures
        ({
            let rounds = spec_rounds3(left, right, k, k1, t1, t2, ss1s);
            forall|i: int|
                0 <= i < rounds.len() ==> {
                    &&& (#[trigger] rounds[i]).0 == ss1s[i]
                    &&& rounds[i].1 == spec_ss2(rounds[i].2, ss1s[i])
                    &&& all_felts(rounds[i].2)
                }
        }),
    decreases left.len(),
{
    let s = ceil_div(left.len() as int, k);
    let rounds = spec_rounds3(left, right, k, k1, t1, t2, ss1s);
    lemma_round_step3(left, right, k, k1, t1, t2, ss1s);
    let pevals = spec_round_evals(left, right, k, s);
    assert(all_felts(pevals)) by {
        assert forall|t: int| 0 <= t < pevals.len() implies is_felt(#[trigger] pevals[t]) by {
            vstd::arithmetic::div_mod::lemma_mod_bound(
                pointwise_partial(left, right, k, s, t, s),
                p(),
            );
        }
    }
    if s > 1 {
        lemma_div_is_strictly_smaller(left.len() - 1, k);
        let ss2 = spec_ss2(pevals, ss1s[0]);
        let t1a = t1.push(label_ss1()).push(be_words(ss1s[0]));
        let t2a = t2.push(label_ss2()).push(be_words(ss2));
        let r = spec_round_r(t1a, t2a);
        let nl = spec_fold_vec(left, spec_eval_base(k, r), k, s);
        let nr = spec_fold_vec(right, spec_eval_base(k, r), k, s);
        let t1b = t1a.push(label_r1()).push(u64_be_bytes(spec_challenge(t1a, label_r1())));
        let t2b = t2a.push(label_r2()).push(u64_be_bytes(spec_challenge(t2a, label_r2())));
        let tail = spec_rounds3(nl, nr, k1, k1, t1b, t2b, ss1s.drop_first());
        lemma_rounds3_structure(nl, nr, k1, k1, t1b, t2b, ss1s.drop_first());
        assert(rounds == seq![(ss1s[0], ss2, pevals)] + tail);
        assert forall|i: int|
            0 <= i < rounds.len() implies {
            &&& (#[trigger] rounds[i]).0 == ss1s[i]
            &&& rounds[i].1 == spec_ss2(rounds[i].2, ss1s[i])
            &&& all_felts(rounds[i].2)
        } by {
            if i == 0 {
                assert(rounds[0] == (ss1s[0], ss2, pevals));
            } else {
                assert(rounds[i] == (seq![(ss1s[0], ss2, pevals)] + tail)[i]);
                assert((seq![(ss1s[0], ss2, pevals)] + tail)[i] == tail[i - 1]);
                assert(i < ss1s.len());
                assert(ss1s.drop_first()[i - 1] == ss1s.subrange(1, ss1s.len() as int)[i - 1]);
                assert(ss1s.drop_first()[i - 1] == ss1s[i]);
            }
        }
    }
}

/// The two shares of every round form an additive secret sharing of
/// that round's polynomial evaluations, checkable from the proof and
/// the inputs alone.
pub proof fn lemma_shares_reconstruct3(
    ss1v: Seq<Seq<u64>>,
    ss2v: Seq<Seq<u64>>,
    inputs: Seq<Seq<u64>>,
    ks: Seq<usize>,
    sid: int,
    j: int,
    i: int,
)
    requires
        proof_valid3(ss1v, ss2v, inputs, ks, sid),
        0 <= j < ss1v.len(),
        0 <= i < ss1v[j].len(),
    ensures
        ({
            let pairs = spec_proof_rounds3(inputs, ks[0] as int, ks[1] as int, sid, ss1v);
            fadd(ss1v[j][i] as int, ss2v[j][i] as int) == coeff_or_zero(pairs[j].2, i)
        }),
{
    let k0 = ks[0] as int;
    let k1 = ks[1] as int;
    let t1a = spec_params_log(label_verifier1(), k0, k1, sid);
    let t2a = spec_params_log(label_verifier2(), k0, k1, sid);
    let raw_eta = spec_challenge(t1a, label_eta());
    let eta = spec_challenge_field(raw_eta);
    let left = spec_interleave_left(inputs[0], inputs[2], eta);
    let right = spec_interleave_right(inputs[1], inputs[3]);
    let t1b = t1a.push(label_eta()).push(u64_be_bytes(raw_eta));
    vstd::arithmetic::div_mod::lemma_div_pos_is_pos(2 * inputs[0].len() - 1, k0);
    lemma_round_step3(left, right, k0, k1, t1b, t2a, ss1v);
    lemma_rounds3_structure(left, right, k0, k1, t1b, t2a, ss1v);
    let pairs = spec_proof_rounds3(inputs, k0, k1, sid, ss1v);
    assert(pairs[j].1 == spec_ss2(pairs[j].2, ss1v[j]));
    assert(ss2v[j] == pairs[j].1);
    let c = coeff_or_zero(pairs[j].2, i);
    assert(is_felt(c));
    assert(fadd(ss1v[j][i] as int, fsub(c as int, ss1v[j][i] as int)) == c) by {
        vstd::arithmetic::div_mod::lemma_add_mod_noop_right(
            ss1v[j][i] as int,
            c - ss1v[j][i],
            p(),
        );
        lemma_small_mod(c as nat, p() as nat);
    }
}

/// Check a claimed evaluation-domain proof against its inputs by
/// recomputing every round from the claimed first shares, without the
/// random source that generated them.
pub fn check_and_gates(proof: &Proof, inputs: &Vec<Vec<u64>>, ks: &[usize], sid: usize) -> (r:
    bool)
    ensures
        r == proof_valid3(
            rows_view(proof.p_coeffs_ss1@),
            rows_view(proof.p_coeffs_ss2@),
            rows_view(inputs@),
            ks@,
            sid as int,
        ),
{
    let ghost ss1v = rows_view(proof.p_coeffs_ss1@);
    let ghost ss2v = rows_view(proof.p_coeffs_ss2@);
    match validate3(inputs, ks) {
        Some(e) => {
            return false;
        },
        None => {},
    }
    let ghost iv = rows_view(inputs@);
    let t = inputs[0].len();
    let k0 = ks[0];
    let k1 = ks[1];
    let rounds = num_rounds(2 * t, k0, k1);
    proof {
        assert(iv[0] == inputs@[0]@);
    }
    if proof.p_coeffs_ss1.len() != rounds {
        proof {
            assert(!shares_shape3_ok(ss1v, iv[0].len() as int, ks@[0] as int, ks@[1] as int));
        }
        return false;
    }
    if proof.p_coeffs_ss2.len() != rounds {
        return false;
    }
    let mut r: usize = 0;
    while r < rounds
        invariant
            r <= rounds,
            spec_validate3(rows_view(inputs@), ks@) is None,
            iv == rows_view(inputs@),
            iv[0].len() == t,
            t >= 1,
            ks@.len() == 2,
            k0 == ks@[0],
            k1 == ks@[1],
            k0 >= 2,
            k1 >= 2,
            k0 <= usize::MAX / 2 - 2,
            k1 <= usize::MAX / 2 - 2,
            rounds == spec_num_rounds(ceil_div(2 * t, k0 as int), k1 as int),
            ss2v == rows_view(proof.p_coeffs_ss2@),
            ss2v.len() == rounds,
            ss1v == rows_view(proof.p_coeffs_ss1@),
            ss1v.len() == rounds,
            forall|i: int|
                0 <= i < r ==> (#[trigger] ss1v[i]).len() == (
                if i == 0 {
                    2 * (k0 as int) - 1
                } else {
                    2 * (k1 as int) - 1
                }),
            forall|i: int| 0 <= i < r ==> all_felts(#[trigger] ss1v[i]),
        decreases rounds - r,
    {
        let expected = if r == 0 {
            2 * k0 - 1
        } else {
            2 * k1 - 1
        };
        let row = &proof.p_coeffs_ss1[r];
        if row.len() != expected {
            proof {
                assert(ss1v[r as int].len() != expected);
                assert(!shares_shape3_ok(
                    ss1v,
                    iv[0].len() as int,
                    ks@[0] as int,
                    ks@[1] as int,
                ));
            }
            return false;
        }
        let mut i: usize = 0;
        while i < expected
            invariant
                i <= expected,
                spec_validate3(rows_view(inputs@), ks@) is None,
                iv == rows_view(inputs@),
                iv[0].len() == t,
                ks@.len() == 2,
                k0 == ks@[0],
                k1 == ks@[1],
                rounds == spec_num_rounds(ceil_div(2 * t, k0 as int), k1 as int),
                r < rounds,
                expected == (
                if r == 0 {
                    2 * (k0 as int) - 1
                } else {
                    2 * (k1 as int) - 1
                }),
                ss1v == rows_view(proof.p_coeffs_ss1@),
                ss1v.len() == rounds,
                ss2v == rows_view(proof.p_coeffs_ss2@),
                ss2v.len() == rounds,
                row@ == ss1v[r as int],
                row@.len() == expected,
                forall|t0: int| 0 <= t0 < i ==> is_felt(#[trigger] row@[t0]),
            decreases expected - i,
        {
            if row[i] >= PR {
                proof {
                    assert(!all_felts(ss1v[r as int]));
                    assert(!shares_shape3_ok(
                        ss1v,
                        iv[0].len() as int,
                        ks@[0] as int,
                        ks@[1] as int,
                    ));
                }
                return false;
            }
            i = i + 1;
        }
        proof {
            assert(all_felts(ss1v[r as int]));
        }
        r = r + 1;
    }
    proof {
        assert(shares_shape3_ok(ss1v, iv[0].len() as int, ks@[0] as int, ks@[1] as int));
    }
    let recomputed = rounds_with_shares3(inputs, ks, sid, &proof.p_coeffs_ss1);
    let ghost pairs = spec_proof_rounds3(
        rows_view(inputs@),
        ks@[0] as int,
        ks@[1] as int,
        sid as int,
        ss1v,
    );
    proof {
        assert forall|i: int|
            0 <= i < rounds implies (#[trigger] recomputed.p_coeffs_ss2@[i])@ == pairs[i].1 by {
            assert(rows_view(recomputed.p_coeffs_ss2@)[i] == recomputed.p_coeffs_ss2@[i]@);
        }
    }
    let mut r: usize = 0;
    while r < rounds
        invariant
            r <= rounds,
            spec_validate3(rows_view(inputs@), ks@) is None,
            iv == rows_view(inputs@),
            iv[0].len() == t,
            ks@.len() == 2,
            rounds == spec_num_rounds(ceil_div(2 * t, ks@[0] as int), ks@[1] as int),
            shares_shape3_ok(ss1v, iv[0].len() as int, ks@[0] as int, ks@[1] as int),
            ss1v == rows_view(proof.p_coeffs_ss1@),
            ss1v.len() == rounds,
            ss2v == rows_view(proof.p_coeffs_ss2@),
            ss2v.len() == rounds,
            pairs == spec_proof_rounds3(
                rows_view(inputs@),
                ks@[0] as int,
                ks@[1] as int,
                sid as int,
                ss1v,
            ),
            recomputed.p_coeffs_ss2@.len() == rounds,
            forall|i: int|
                0 <= i < rounds ==> (#[trigger] recomputed.p_coeffs_ss2@[i])@ == pairs[i].1,
            forall|i: int| 0 <= i < r ==> (#[trigger] ss2v[i]) == pairs[i].1,
        decreases rounds - r,
    {
        if !crate::prover::vec_eq(&proof.p_coeffs_ss2[r], &recomputed.p_coeffs_ss2[r]) {
            proof {
                assert(ss2v[r as int] == proof.p_coeffs_ss2@[r as int]@);
                assert(ss2v[r as int] != pairs[r as int].1);
            }
            return false;
        }
        proof {
            assert(ss2v[r as int] == proof.p_coeffs_ss2@[r as int]@);
        }
        r = r + 1;
    }
    true
}

/// The two interpolation representations agree: the evaluation-domain
/// Lagrange coefficient for input point i at evaluation point x is
/// exactly the coefficient-domain basis polynomial evaluated at x.
pub proof fn lemma_representations_agree(i: int, x: int, j: int)
    requires
        0 <= i < crate::euclid::SMALL_FACTOR_BOUND,
        0 <= j <= crate::euclid::SMALL_FACTOR_BOUND,
        0 <= x < PR,
    ensures
        ext_entry_partial(i, x, j) == crate::poly::poly_eval(
            crate::interpolation::spec_basis_poly(i, j),
            x,
        ),
    decreases j,
{
    let q = p();
    if j <= 0 {
        assert(seq![1u64].drop_first() =~= Seq::<u64>::empty());
        assert(crate::poly::poly_eval(Seq::<u64>::empty(), x) == 0);
        assert(crate::poly::poly_eval(seq![1u64].drop_first(), x) == 0);
        assert(crate::poly::poly_eval(seq![1u64], x) == (1 + x * 0) % q);
        assert(x * 0 == 0) by {
            vstd::arithmetic::mul::lemma_mul_by_zero_is_zero(x);
        }
        lemma_small_mod(1nat, q as nat);
    } else if j - 1 == i {
        lemma_representations_agree(i, x, j - 1);
    } else {
        lemma_representations_agree(i, x, j - 1);
        let prev = crate::interpolation::spec_basis_poly(i, j - 1);
        let f = crate::interpolation::spec_basis_factor(i, j - 1);
        crate::poly::lemma_eval_pmul(prev, f, x);
        crate::interpolation::lemma_factor_eval(i, j - 1, x);
        let c = spec_inverse(spec_delta(i, j - 1));
        assert(crate::poly::poly_eval(f, x) == (c as int * (x - (j - 1))) % q);
        assert(fmul(c as int, (x - (j - 1)) as int % q) == (c as int * (x - (j - 1))) % q) by {
            vstd::arithmetic::div_mod::lemma_mul_mod_noop_right(c as int, x - (j - 1), q);
        }
    }
}

/// Recombining values with the coefficient row at a point equals the
/// prefix of the weighted basis-evaluation sum.
proof fn lemma_dot_is_eval_sum(
    row: Seq<u64>,
    bases: Seq<Seq<u64>>,
    vals: Seq<u64>,
    r: u64,
    m: int,
)
    requires
        0 <= m <= vals.len(),
        row.len() >= m,
        forall|i: int|
            0 <= i < m ==> (#[trigger] row[i]) as int == crate::poly::poly_eval(
                bases[i],
                r as int,
            ),
    ensures
        crate::field::dot_prefix(row, vals, m) == crate::interpolation::interp_eval_sum(
            bases,
            vals,
            r as int,
            m,
        ),
    decreases m,
{
    if m > 0 {
        lemma_dot_is_eval_sum(row, bases, vals, r, m - 1);
        assert(row[m - 1] * vals[m - 1] == vals[m - 1] * crate::poly::poly_eval(
            bases[m - 1],
            r as int,
        )) by {
            vstd::arithmetic::mul::lemma_mul_is_commutative(row[m - 1] as int, vals[m - 1] as int);
        }
    }
}

/// The aggregate form of the agreement between the two interpolation
/// representations: taking the dot product of a value vector with the
/// coefficient row for a point gives exactly the value at that point
/// of the polynomial interpolated from those values.
pub proof fn lemma_row_recombination_agrees(n: u64, vals: Seq<u64>, r: u64)
    requires
        1 <= n,
        n <= crate::euclid::SMALL_FACTOR_BOUND,
        vals.len() == n,
        is_felt(r),
    ensures
        dot(spec_eval_base(n as int, r), vals) % p() == crate::poly::poly_eval(
            crate::interpolation::spec_interpolate(
                crate::interpolation::spec_lagrange_bases(n as int),
                vals,
                n as int,
            ),
            r as int,
        ),
{
    let bases = crate::interpolation::spec_lagrange_bases(n as int);
    let row = spec_eval_base(n as int, r);
    assert forall|i: int|
        0 <= i < n implies (#[trigger] row[i]) as int == crate::poly::poly_eval(
        bases[i],
        r as int,
    ) by {
        assert(bases[i] == crate::interpolation::spec_basis_poly(i, n as int));
        lemma_representations_agree(i, r as int, n as int);
    }
    assert forall|i: int| 0 <= i < n implies (#[trigger] bases[i]).len() <= n by {
        assert(bases[i] == crate::interpolation::spec_basis_poly(i, n as int));
        crate::interpolation::lemma_basis_len(i, n as int);
    }
    crate::interpolation::lemma_interp_eval(bases, vals, n as int, r as int, n as int);
    lemma_dot_is_eval_sum(row, bases, vals, r, n as int);
}

} // verus!
