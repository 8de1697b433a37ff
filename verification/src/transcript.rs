//! Trusted boundary to merlin's Fiat–Shamir transcript.
//!
//! A transcript is modelled by the ordered sequence of byte strings
//! bound into its hash state: the domain label first, then each
//! appended label and message, then, for every challenge drawn, the
//! challenge label and the bytes produced.  merlin's state after any
//! prefix of operations is a pure function of that sequence, and its
//! challenge output is a pure function of the state and the label, so
//! two transcripts with equal logs yield equal challenges.  Reading
//! the log back off the state, as `transcript_log` does, additionally
//! idealizes the sponge as free of collisions: distinct absorbed
//! histories are taken to leave distinct states.
//!
//! Labels are baked into one wrapper each, because the underlying API
//! wants them as static byte strings.

use crate::encoding::u64_be_bytes;
use crate::field::{is_felt, modp, p, PR};
use vstd::prelude::*;

verus! {

#[verifier::external_type_specification]
#[verifier::external_body]
pub struct ExTranscript(merlin::Transcript);

/// Abstract state of a transcript: the byte strings bound into its
/// hash, in order, beginning with the domain label.
pub uninterp spec fn transcript_log(t: merlin::Transcript) -> Seq<Seq<u8>>;

/// Name for the eight challenge bytes, read as a big-endian word, that
/// merlin's challenge_bytes produces: a deterministic function of the
/// transcript state and the challenge label alone.
pub uninterp spec fn spec_challenge(log: Seq<Seq<u8>>, label: Seq<u8>) -> u64;

/// The ASCII bytes of the domain label "DZKP_FLIOP_1".
pub open spec fn label_verifier1() -> Seq<u8> {
    seq![68u8, 90u8, 75u8, 80u8, 95u8, 70u8, 76u8, 73u8, 79u8, 80u8, 95u8, 49u8]
}

/// The ASCII bytes of the domain label "DZKP_FLIOP_2".
pub open spec fn label_verifier2() -> Seq<u8> {
    seq![68u8, 90u8, 75u8, 80u8, 95u8, 70u8, 76u8, 73u8, 79u8, 80u8, 95u8, 50u8]
}

/// The ASCII bytes of the label "k0".
pub open spec fn label_k0() -> Seq<u8> {
    seq![107u8, 48u8]
}

/// The ASCII bytes of the label "k1".
pub open spec fn label_k1() -> Seq<u8> {
    seq![107u8, 49u8]
}

/// The ASCII bytes of the label "sid".
pub open spec fn label_sid() -> Seq<u8> {
    seq![115u8, 105u8, 100u8]
}

/// The ASCII bytes of the label "eta".
pub open spec fn label_eta() -> Seq<u8> {
    seq![101u8, 116u8, 97u8]
}

/// The ASCII bytes of the label "ss1".
pub open spec fn label_ss1() -> Seq<u8> {
    seq![115u8, 115u8, 49u8]
}

/// The ASCII bytes of the label "ss2".
pub open spec fn label_ss2() -> Seq<u8> {
    seq![115u8, 115u8, 50u8]
}

/// The ASCII bytes of the label "r1".
pub open spec fn label_r1() -> Seq<u8> {
    seq![114u8, 49u8]
}

/// The ASCII bytes of the label "r2".
pub open spec fn label_r2() -> Seq<u8> {
    seq![114u8, 50u8]
}

/// Relies on merlin::Transcript::new with label "DZKP_FLIOP_1": a fresh
/// transcript whose state binds exactly that domain label.
#[verifier::external_body]
pub(crate) fn transcript_new_verifier1() -> (t: merlin::Transcript)
    ensures
        transcript_log(t) == seq![label_verifier1()],
{
    merlin::Transcript::new(b"DZKP_FLIOP_1")
}

/// Relies on merlin::Transcript::new with label "DZKP_FLIOP_2": a fresh
/// transcript whose state binds exactly that domain label.
#[verifier::external_body]
pub(crate) fn transcript_new_verifier2() -> (t: merlin::Transcript)
    ensures
        transcript_log(t) == seq![label_verifier2()],
{
    merlin::Transcript::new(b"DZKP_FLIOP_2")
}

/// Relies on merlin::Transcript::append_message with label "k0": binds
/// the label and the eight big-endian bytes of x into the state.
#[verifier::external_body]
pub(crate) fn transcript_append_k0(t: &mut merlin::Transcript, x: u64)
    ensures
        transcript_log(*final(t)) == transcript_log(*old(t)).push(label_k0()).push(
            u64_be_bytes(x),
        ),
{
    t.append_message(b"k0", &x.to_be_bytes())
}

/// Relies on merlin::Transcript::append_message with label "k1": binds
/// the label and the eight big-endian bytes of x into the state.
#[verifier::external_body]
pub(crate) fn transcript_append_k1(t: &mut merlin::Transcript, x: u64)
    ensures
        transcript_log(*final(t)) == transcript_log(*old(t)).push(label_k1()).push(
            u64_be_bytes(x),
        ),
{
    t.append_message(b"k1", &x.to_be_bytes())
}

/// Relies on merlin::Transcript::append_message with label "sid": binds
/// the label and the eight big-endian bytes of x into the state.
#[verifier::external_body]
pub(crate) fn transcript_append_sid(t: &mut merlin::Transcript, x: u64)
    ensures
        transcript_log(*final(t)) == transcript_log(*old(t)).push(label_sid()).push(
            u64_be_bytes(x),
        ),
{
    t.append_message(b"sid", &x.to_be_bytes())
}

/// Relies on merlin::Transcript::append_message with label "ss1": binds
/// the label and the given message bytes into the state.  merlin
/// requires the message length to fit in 32 bits and panics otherwise,
/// so callers must stay below that limit.
#[verifier::external_body]
pub(crate) fn transcript_append_ss1(t: &mut merlin::Transcript, message: &[u8])
    requires
        message@.len() <= u32::MAX,
    ensures
        transcript_log(*final(t)) == transcript_log(*old(t)).push(label_ss1()).push(message@),
{
    t.append_message(b"ss1", message)
}

/// Relies on merlin::Transcript::append_message with label "ss2": binds
/// the label and the given message bytes into the state.  merlin
/// requires the message length to fit in 32 bits and panics otherwise,
/// so callers must stay below that limit.
#[verifier::external_body]
pub(crate) fn transcript_append_ss2(t: &mut merlin::Transcript, message: &[u8])
    requires
        message@.len() <= u32::MAX,
    ensures
        transcript_log(*final(t)) == transcript_log(*old(t)).push(label_ss2()).push(message@),
{
    t.append_message(b"ss2", message)
}

/// Relies on merlin::Transcript::challenge_bytes with label "eta":
/// eight pseudorandom bytes that are a deterministic function of the
/// state and label; the state advances by the same data.
#[verifier::external_body]
pub(crate) fn transcript_challenge_eta(t: &mut merlin::Transcript) -> (r: u64)
    ensures
        r == spec_challenge(transcript_log(*old(t)), label_eta()),
        transcript_log(*final(t)) == transcript_log(*old(t)).push(label_eta()).push(
            u64_be_bytes(r),
        ),
{
    let mut buf = [0u8; 8];
    t.challenge_bytes(b"eta", &mut buf);
    u64::from_be_bytes(buf)
}

/// Relies on merlin::Transcript::challenge_bytes with label "r1", as
/// for the "eta" challenge.
#[verifier::external_body]
pub(crate) fn transcript_challenge_r1(t: &mut merlin::Transcript) -> (r: u64)
    ensures
        r == spec_challenge(transcript_log(*old(t)), label_r1()),
        transcript_log(*final(t)) == transcript_log(*old(t)).push(label_r1()).push(
            u64_be_bytes(r),
        ),
{
    let mut buf = [0u8; 8];
    t.challenge_bytes(b"r1", &mut buf);
    u64::from_be_bytes(buf)
}

/// Relies on merlin::Transcript::challenge_bytes with label "r2", as
/// for the "eta" challenge.
#[verifier::external_body]
pub(crate) fn transcript_challenge_r2(t: &mut merlin::Transcript) -> (r: u64)
    ensures
        r == spec_challenge(transcript_log(*old(t)), label_r2()),
        transcript_log(*final(t)) == transcript_log(*old(t)).push(label_r2()).push(
            u64_be_bytes(r),
        ),
{
    let mut buf = [0u8; 8];
    t.challenge_bytes(b"r2", &mut buf);
    u64::from_be_bytes(buf)
}

/// Ratio by which a 64-bit challenge word is divided to map it near the
/// field range.
pub const CHALLENGE_MAP: u64 = u64::MAX / PR;

/// A challenge word mapped to a field element: divided by
/// floor(u64::MAX / p), with a final reduction for the one value at the
/// top of the bucket range that the division alone leaves at p.
pub open spec fn spec_challenge_field(x: u64) -> u64 {
    (((x / CHALLENGE_MAP) as int) % p()) as u64
}

/// Map eight big-endian challenge bytes, read as a word, to a field
/// element.
pub fn challenge_to_field(x: u64) -> (r: u64)
    ensures
        r == spec_challenge_field(x),
        is_felt(r),
{
    modp(x / CHALLENGE_MAP)
}

} // verus!
