//! Canonical byte encoding of a proof.
//!
//! A proof is serialized as an ordered sequence of rounds: first the
//! round count, then, per round, the share length followed by
//! verifier 1's and verifier 2's share words, every integer written as
//! eight big-endian bytes.  Decoding rejects truncated streams,
//! trailing bytes, and any share word at or above p.

use crate::encoding::{be_words, be_words_prefix, push_u64_be, u64_be_bytes, u64_from_be};
use crate::field::PR;
use crate::poly::all_felts;
use crate::prover::{rows_view, Proof};
use vstd::prelude::*;

verus! {

/// A well-formed share table: equally many rounds on both sides, rows
/// of equal width pairwise, and every word a reduced residue.
pub open spec fn shares_wf(ss1v: Seq<Seq<u64>>, ss2v: Seq<Seq<u64>>) -> bool {
    &&& ss1v.len() == ss2v.len()
    &&& forall|i: int| 0 <= i < ss1v.len() ==> (#[trigger] ss1v[i]).len() == ss2v[i].len()
    &&& forall|i: int| 0 <= i < ss1v.len() ==> all_felts(#[trigger] ss1v[i])
    &&& forall|i: int| 0 <= i < ss2v.len() ==> all_felts(#[trigger] ss2v[i])
}

/// The bytes of the first n rounds, in order.
pub open spec fn enc_rounds(ss1v: Seq<Seq<u64>>, ss2v: Seq<Seq<u64>>, n: int) -> Seq<u8>
    decreases n,
{
    if n <= 0 {
        Seq::empty()
    } else {
        enc_rounds(ss1v, ss2v, n - 1) + u64_be_bytes(ss1v[n - 1].len() as u64) + be_words(
            ss1v[n - 1],
        ) + be_words(ss2v[n - 1])
    }
}

/// The canonical encoding of a proof's two share tables.
pub open spec fn spec_encode(ss1v: Seq<Seq<u64>>, ss2v: Seq<Seq<u64>>) -> Seq<u8> {
    u64_be_bytes(ss1v.len() as u64) + enc_rounds(ss1v, ss2v, ss1v.len() as int)
}

/// Share tables small enough to decode on this machine: the round
/// count must fit an index, and the parser accounts sixteen stream
/// bytes per share word.
pub open spec fn shares_fit(ss1v: Seq<Seq<u64>>) -> bool {
    &&& ss1v.len() <= usize::MAX
    &&& forall|i: int| 0 <= i < ss1v.len() ==> (#[trigger] ss1v[i]).len() <= usize::MAX / 16
}

/// A byte stream is decodable when it is the canonical encoding of
/// some well-formed, machine-sized share tables.
pub open spec fn decodable(bytes: Seq<u8>) -> bool {
    exists|s1: Seq<Seq<u64>>, s2: Seq<Seq<u64>>|
        {
            &&& shares_wf(s1, s2)
            &&& shares_fit(s1)
            &&& bytes == #[trigger] spec_encode(s1, s2)
        }
}

/// Why a byte stream was rejected.
#[derive(Clone, Copy, Debug, PartialEq, Eq, Structural)]
pub enum DecodeError {
    /// The stream ended before the announced words.
    Truncated,
    /// A share word was at or above the field modulus.
    OutOfRange,
    /// Bytes remained after the announced rounds.
    TrailingBytes,
    /// An announced count does not fit this machine.
    Oversize,
}

/// Serialize a proof into its canonical bytes.
pub fn proof_to_bytes(proof: &Proof) -> (r: Vec<u8>)
    requires
        proof@.0.len() == proof@.1.len(),
        forall|i: int|
            0 <= i < proof@.0.len() ==> (#[trigger] proof@.0[i]).len() == proof@.1[i].len(),
    ensures
        r@ == spec_encode(proof@.0, proof@.1),
{
    let ghost s1 = proof@.0;
    let ghost s2 = proof@.1;
    let rounds = proof.p_coeffs_ss1.len();
    let mut out: Vec<u8> = Vec::new();
    push_u64_be(&mut out, rounds as u64);
    let mut i: usize = 0;
    while i < rounds
        invariant
            i <= rounds,
            rounds == s1.len(),
            s1 == proof@.0,
            s2 == proof@.1,
            s1.len() == s2.len(),
            forall|t: int| 0 <= t < s1.len() ==> (#[trigger] s1[t]).len() == s2[t].len(),
            out@ == u64_be_bytes(rounds as u64) + enc_rounds(s1, s2, i as int),
        decreases rounds - i,
    {
        let row1 = &proof.p_coeffs_ss1[i];
        let row2 = &proof.p_coeffs_ss2[i];
        push_u64_be(&mut out, row1.len() as u64);
        let mut j: usize = 0;
        let ghost mid = out@;
        while j < row1.len()
            invariant
                j <= row1@.len(),
                row1@ == s1[i as int],
                out@ == mid + be_words_prefix(row1@, j as int),
            decreases row1@.len() - j,
        {
            push_u64_be(&mut out, row1[j]);
            j = j + 1;
        }
        let mut j: usize = 0;
        let ghost mid2 = out@;
        while j < row2.len()
            invariant
                j <= row2@.len(),
                row2@ == s2[i as int],
                out@ == mid2 + be_words_prefix(row2@, j as int),
            decreases row2@.len() - j,
        {
            push_u64_be(&mut out, row2[j]);
            j = j + 1;
        }
        proof {
            assert(s1[i as int] == proof.p_coeffs_ss1@[i as int]@);
            assert(s2[i as int] == proof.p_coeffs_ss2@[i as int]@);
            assert(out@ =~= u64_be_bytes(rounds as u64) + enc_rounds(s1, s2, i + 1));
        }
        i = i + 1;
    }
    out
}

/// Parse a run of words from the stream, rejecting any at or above p.
fn parse_words(bytes: &[u8], start: usize, count: usize) -> (r: Result<Vec<u64>, DecodeError>)
    requires
        start + count * 8 <= bytes@.len(),
    ensures
        r matches Ok(v) ==> {
            &&& v@.len() == count
            &&& all_felts(v@)
            &&& be_words(v@) == bytes@.subrange(start as int, start as int + count * 8)
        },
        (exists|v: Seq<u64>|
            {
                &&& v.len() == count
                &&& all_felts(v)
                &&& #[trigger] be_words(v) == bytes@.subrange(
                    start as int,
                    start as int + count * 8,
                )
            }) ==> r is Ok,
{
    let blen = bytes.len();
    let mut out: Vec<u64> = Vec::new();
    let mut j: usize = 0;
    while j < count
        invariant
            j <= count,
            blen == bytes@.len(),
            start + count * 8 <= bytes@.len(),
            out@.len() == j,
            all_felts(out@),
            be_words_prefix(out@, j as int) == bytes@.subrange(
                start as int,
                start as int + j * 8,
            ),
        decreases count - j,
    {
        let w = u64_from_be(bytes, start + j * 8);
        if w >= PR {
            proof {
                if exists|v: Seq<u64>|
                    {
                        &&& v.len() == count
                        &&& all_felts(v)
                        &&& #[trigger] be_words(v) == bytes@.subrange(
                            start as int,
                            start as int + count * 8,
                        )
                    } {
                    let v = choose|v: Seq<u64>|
                        {
                            &&& v.len() == count
                            &&& all_felts(v)
                            &&& #[trigger] be_words(v) == bytes@.subrange(
                                start as int,
                                start as int + count * 8,
                            )
                        };
                    crate::encoding::lemma_be_words_prefix_index(v, count as int, j as int);
                    assert(u64_be_bytes(v[j as int]) =~= bytes@.subrange(
                        start + 8 * (j as int),
                        start + 8 * (j as int) + 8,
                    )) by {
                        assert(be_words(v).subrange(8 * (j as int), 8 * (j as int) + 8)
                            =~= bytes@.subrange(
                            start + 8 * (j as int),
                            start + 8 * (j as int) + 8,
                        ));
                    }
                    crate::encoding::lemma_be_bytes_injective(w, v[j as int]);
                    assert(false);
                }
            }
            return Err(DecodeError::OutOfRange);
        }
        let ghost prev = out@;
        out.push(w);
        proof {
            assert(out@.drop_last() =~= prev);
            assert(be_words_prefix(out@, j as int) == be_words_prefix(prev, j as int)) by {
                lemma_be_prefix_stable(out@, j as int);
            }
            assert(out@[j as int] == w);
            assert(be_words_prefix(out@, j + 1) == be_words_prefix(out@, j as int)
                + u64_be_bytes(w));
            assert(be_words_prefix(out@, j + 1) =~= bytes@.subrange(
                start as int,
                start as int + (j + 1) * 8,
            )) by {
                assert(bytes@.subrange(start as int, start as int + (j + 1) * 8) =~= bytes@
                    .subrange(start as int, start as int + j * 8) + bytes@.subrange(
                    start as int + j * 8,
                    start as int + j * 8 + 8,
                ));
            }
        }
        j = j + 1;
    }
    proof {
        assert(be_words(out@) == be_words_prefix(out@, count as int));
        assert(bytes@.subrange(start as int, start as int + count * 8) == bytes@.subrange(
            start as int,
            start as int + count * 8,
        ));
    }
    Ok(out)
}

/// The words already emitted do not change as the sequence grows.
proof fn lemma_be_prefix_stable(s: Seq<u64>, n: int)
    requires
        0 <= n < s.len(),
    ensures
        be_words_prefix(s, n) == be_words_prefix(s.drop_last(), n),
    decreases n,
{
    if n > 0 {
        lemma_be_prefix_stable(s, n - 1);
        assert(s.drop_last()[n - 1] == s[n - 1]);
    }
}

/// One more round appends its header and both word runs.
proof fn lemma_enc_rounds_len_step(s1: Seq<Seq<u64>>, s2: Seq<Seq<u64>>, i: int)
    requires
        0 <= i,
        s1[i].len() == s2[i].len(),
    ensures
        enc_rounds(s1, s2, i + 1).len() == enc_rounds(s1, s2, i).len() + 8 + 16 * s1[i].len(),
{
    crate::encoding::lemma_be_words_len(s1[i]);
    crate::encoding::lemma_be_words_len(s2[i]);
}

/// Fewer rounds encode to a prefix of more rounds.
proof fn lemma_enc_rounds_prefix(s1: Seq<Seq<u64>>, s2: Seq<Seq<u64>>, m: int, n: int)
    requires
        0 <= m <= n,
    ensures
        enc_rounds(s1, s2, m).len() <= enc_rounds(s1, s2, n).len(),
        enc_rounds(s1, s2, n).subrange(0, enc_rounds(s1, s2, m).len() as int) == enc_rounds(
            s1,
            s2,
            m,
        ),
    decreases n - m,
{
    if m == n {
        assert(enc_rounds(s1, s2, n).subrange(0, enc_rounds(s1, s2, m).len() as int)
            =~= enc_rounds(s1, s2, m));
    } else {
        lemma_enc_rounds_prefix(s1, s2, m, n - 1);
        assert(enc_rounds(s1, s2, n).subrange(0, enc_rounds(s1, s2, m).len() as int)
            =~= enc_rounds(s1, s2, n - 1).subrange(0, enc_rounds(s1, s2, m).len() as int));
    }
}

/// Within the encoding of n rounds, round i occupies its header and
/// two word runs at its own offset.
proof fn lemma_enc_round_segments(s1: Seq<Seq<u64>>, s2: Seq<Seq<u64>>, i: int, n: int)
    requires
        0 <= i < n,
        s1[i].len() == s2[i].len(),
    ensures
        ({
            let off = enc_rounds(s1, s2, i).len() as int;
            let l = s1[i].len() as int;
            &&& enc_rounds(s1, s2, i + 1).len() == off + 8 + 16 * l
            &&& enc_rounds(s1, s2, n).len() >= off + 8 + 16 * l
            &&& enc_rounds(s1, s2, n).subrange(off, off + 8) == u64_be_bytes(s1[i].len() as u64)
            &&& enc_rounds(s1, s2, n).subrange(off + 8, off + 8 + 8 * l) == be_words(s1[i])
            &&& enc_rounds(s1, s2, n).subrange(off + 8 + 8 * l, off + 8 + 16 * l) == be_words(
                s2[i],
            )
        }),
{
    let off = enc_rounds(s1, s2, i).len() as int;
    let l = s1[i].len() as int;
    lemma_enc_rounds_len_step(s1, s2, i);
    crate::encoding::lemma_be_words_len(s1[i]);
    crate::encoding::lemma_be_words_len(s2[i]);
    lemma_enc_rounds_prefix(s1, s2, i + 1, n);
    assert(enc_rounds(s1, s2, i + 1).subrange(off, off + 8) =~= u64_be_bytes(
        s1[i].len() as u64,
    ));
    assert(enc_rounds(s1, s2, i + 1).subrange(off + 8, off + 8 + 8 * l) =~= be_words(s1[i]));
    assert(enc_rounds(s1, s2, i + 1).subrange(off + 8 + 8 * l, off + 8 + 16 * l) =~= be_words(
        s2[i],
    ));
    assert(enc_rounds(s1, s2, n).subrange(off, off + 8) =~= enc_rounds(s1, s2, i + 1).subrange(
        off,
        off + 8,
    ));
    assert(enc_rounds(s1, s2, n).subrange(off + 8, off + 8 + 8 * l) =~= enc_rounds(
        s1,
        s2,
        i + 1,
    ).subrange(off + 8, off + 8 + 8 * l));
    assert(enc_rounds(s1, s2, n).subrange(off + 8 + 8 * l, off + 8 + 16 * l) =~= enc_rounds(
        s1,
        s2,
        i + 1,
    ).subrange(off + 8 + 8 * l, off + 8 + 16 * l));
}

/// Deserialize a proof from its canonical bytes.  Success yields
/// exactly the share tables whose canonical encoding is the input,
/// with every decoded word a reduced residue; and every canonical
/// encoding of well-formed, machine-sized share tables is accepted.
#[verifier::rlimit(100)]
pub fn proof_from_bytes(bytes: &[u8]) -> (r: Result<Proof, DecodeError>)
    ensures
        r matches Ok(proof) ==> {
            &&& proof@.0.len() == proof@.1.len()
            &&& shares_wf(proof@.0, proof@.1)
            &&& bytes@ == spec_encode(proof@.0, proof@.1)
        },
        decodable(bytes@) ==> r is Ok,
{
    let ghost dec = decodable(bytes@);
    let ghost (w1, w2): (Seq<Seq<u64>>, Seq<Seq<u64>>) = if dec {
        choose|s1: Seq<Seq<u64>>, s2: Seq<Seq<u64>>|
            {
                &&& shares_wf(s1, s2)
                &&& shares_fit(s1)
                &&& bytes@ == #[trigger] spec_encode(s1, s2)
            }
    } else {
        (Seq::empty(), Seq::empty())
    };
    proof {
        if dec {
            assert(bytes@ == spec_encode(w1, w2));
            assert(bytes@.len() >= 8);
            assert(bytes@.subrange(0, 8) =~= u64_be_bytes(w1.len() as u64));
            assert(bytes@.len() == 8 + enc_rounds(w1, w2, w1.len() as int).len());
        }
    }
    if bytes.len() < 8 {
        return Err(DecodeError::Truncated);
    }
    let rounds_u64 = u64_from_be(bytes, 0);
    proof {
        if dec {
            crate::encoding::lemma_be_bytes_injective(rounds_u64, w1.len() as u64);
            assert(rounds_u64 == w1.len());
        }
    }
    if rounds_u64 > (usize::MAX as u64) {
        return Err(DecodeError::Oversize);
    }
    let rounds = rounds_u64 as usize;
    let mut pos: usize = 8;
    let mut ss1: Vec<Vec<u64>> = Vec::new();
    let mut ss2: Vec<Vec<u64>> = Vec::new();
    let mut i: usize = 0;
    while i < rounds
        invariant
            i <= rounds,
            8 <= pos <= bytes@.len(),
            ss1@.len() == i,
            ss2@.len() == i,
            forall|t: int|
                0 <= t < i ==> (#[trigger] rows_view(ss1@)[t]).len() == rows_view(ss2@)[t].len(),
            forall|t: int| 0 <= t < i ==> all_felts(#[trigger] rows_view(ss1@)[t]),
            forall|t: int| 0 <= t < i ==> all_felts(#[trigger] rows_view(ss2@)[t]),
            u64_be_bytes(rounds_u64) == bytes@.subrange(0, 8),
            enc_rounds(rows_view(ss1@), rows_view(ss2@), i as int) == bytes@.subrange(
                8,
                pos as int,
            ),
            dec == decodable(bytes@),
            dec ==> shares_wf(w1, w2),
            dec ==> shares_fit(w1),
            dec ==> bytes@ == spec_encode(w1, w2),
            dec ==> rounds == w1.len(),
            dec ==> pos == 8 + enc_rounds(w1, w2, i as int).len(),
            dec ==> bytes@.len() == 8 + enc_rounds(w1, w2, w1.len() as int).len(),
        decreases rounds - i,
    {
        proof {
            if dec {
                lemma_enc_round_segments(w1, w2, i as int, w1.len() as int);
                assert(bytes@.subrange(pos as int, pos + 8) =~= enc_rounds(
                    w1,
                    w2,
                    w1.len() as int,
                ).subrange(
                    enc_rounds(w1, w2, i as int).len() as int,
                    enc_rounds(w1, w2, i as int).len() as int + 8,
                ));
                assert(bytes@.subrange(pos as int, pos + 8) == u64_be_bytes(
                    w1[i as int].len() as u64,
                ));
            }
        }
        if bytes.len() - pos < 8 {
            proof {
                if dec {
                    assert(false);
                }
            }
            return Err(DecodeError::Truncated);
        }
        let len_u64 = u64_from_be(bytes, pos);
        proof {
            if dec {
                crate::encoding::lemma_be_bytes_injective(len_u64, w1[i as int].len() as u64);
                assert(len_u64 == w1[i as int].len());
            }
        }
        if len_u64 > (usize::MAX as u64) / 16 {
            proof {
                if dec {
                    assert(w1[i as int].len() <= usize::MAX / 16);
                    assert(false);
                }
            }
            return Err(DecodeError::Oversize);
        }
        let len = len_u64 as usize;
        let ghost old_pos = pos as int;
        let ghost s1_old = rows_view(ss1@);
        let ghost s2_old = rows_view(ss2@);
        pos = pos + 8;
        if bytes.len() - pos < len * 16 {
            proof {
                if dec {
                    assert(false);
                }
            }
            return Err(DecodeError::Truncated);
        }
        proof {
            if dec {
                let off = enc_rounds(w1, w2, i as int).len() as int;
                let l = w1[i as int].len() as int;
                assert(bytes@.subrange(pos as int, pos + 8 * l) =~= enc_rounds(
                    w1,
                    w2,
                    w1.len() as int,
                ).subrange(off + 8, off + 8 + 8 * l));
                assert(bytes@.subrange(pos + 8 * l, pos + 16 * l) =~= enc_rounds(
                    w1,
                    w2,
                    w1.len() as int,
                ).subrange(off + 8 + 8 * l, off + 8 + 16 * l));
                assert(be_words(w1[i as int]) == bytes@.subrange(pos as int, pos + 8 * l));
                assert(be_words(w2[i as int]) == bytes@.subrange(pos + 8 * l, pos + 16 * l));
            }
        }
        let row1 = match parse_words(bytes, pos, len) {
            Ok(v) => v,
            Err(e) => {
                proof {
                    if dec {
                        assert(exists|v: Seq<u64>|
                            {
                                &&& v.len() == len
                                &&& all_felts(v)
                                &&& #[trigger] be_words(v) == bytes@.subrange(
                                    pos as int,
                                    pos as int + len * 8,
                                )
                            });
                        assert(false);
                    }
                }
                return Err(e);
            },
        };
        let row2 = match parse_words(bytes, pos + len * 8, len) {
            Ok(v) => v,
            Err(e) => {
                proof {
                    if dec {
                        assert(exists|v: Seq<u64>|
                            {
                                &&& v.len() == len
                                &&& all_felts(v)
                                &&& #[trigger] be_words(v) == bytes@.subrange(
                                    pos + len * 8,
                                    pos + len * 8 + len * 8,
                                )
                            });
                        assert(false);
                    }
                }
                return Err(e);
            },
        };
        let ghost r1 = row1@;
        let ghost r2 = row2@;
        pos = pos + len * 16;
        ss1.push(row1);
        ss2.push(row2);
        proof {
            let s1_new = rows_view(ss1@);
            let s2_new = rows_view(ss2@);
            assert(s1_new =~= s1_old.push(r1));
            assert(s2_new =~= s2_old.push(r2));
            assert(enc_rounds(s1_new, s2_new, i as int) == enc_rounds(s1_old, s2_old, i as int))
                by {
                lemma_enc_rounds_stable(s1_old, s2_old, r1, r2, i as int);
            }
            assert(s1_new[i as int] == r1);
            assert(s2_new[i as int] == r2);
            assert(r1.len() == len_u64);
            assert(enc_rounds(s1_new, s2_new, i + 1) =~= bytes@.subrange(8, pos as int)) by {
                assert(bytes@.subrange(8, pos as int) =~= bytes@.subrange(8, old_pos) + bytes@
                    .subrange(old_pos, old_pos + 8) + bytes@.subrange(
                    old_pos + 8,
                    old_pos + 8 + len * 8,
                ) + bytes@.subrange(old_pos + 8 + len * 8, old_pos + 8 + len * 16));
                assert(u64_be_bytes(r1.len() as u64) == bytes@.subrange(old_pos, old_pos + 8));
                assert(be_words(r1) == bytes@.subrange(old_pos + 8, old_pos + 8 + len * 8));
                assert(be_words(r2) == bytes@.subrange(
                    old_pos + 8 + len * 8,
                    old_pos + 8 + len * 16,
                ));
            }
            if dec {
                lemma_enc_rounds_len_step(w1, w2, i as int);
            }
        }
        i = i + 1;
    }
    if pos != bytes.len() {
        proof {
            if dec {
                assert(false);
            }
        }
        return Err(DecodeError::TrailingBytes);
    }
    proof {
        assert(rows_view(ss1@).len() == rounds_u64);
        assert(bytes@ =~= bytes@.subrange(0, 8) + bytes@.subrange(8, pos as int));
        assert(bytes@ == spec_encode(rows_view(ss1@), rows_view(ss2@)));
    }
    Ok(Proof { p_coeffs_ss1: ss1, p_coeffs_ss2: ss2 })
}

/// Earlier rounds' bytes do not change when a new round is appended.
proof fn lemma_enc_rounds_stable(
    s1: Seq<Seq<u64>>,
    s2: Seq<Seq<u64>>,
    r1: Seq<u64>,
    r2: Seq<u64>,
    n: int,
)
    requires
        n <= s1.len(),
        n <= s2.len(),
    ensures
        enc_rounds(s1.push(r1), s2.push(r2), n) == enc_rounds(s1, s2, n),
    decreases n,
{
    if n > 0 {
        lemma_enc_rounds_stable(s1, s2, r1, r2, n - 1);
        assert(s1.push(r1)[n - 1] == s1[n - 1]);
        assert(s2.push(r2)[n - 1] == s2[n - 1]);
    }
}

} // verus!
