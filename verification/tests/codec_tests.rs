use dzkp::codec::{proof_from_bytes, proof_to_bytes, DecodeError};
use dzkp::field::{rand_modp, PR};
use dzkp::prover::{prove_and_gates, Proof};
use rand::{thread_rng, Rng};

#[test]
fn test_codec_round_trip() {
    let mut rng = thread_rng();
    let sid: usize = rng.gen();
    let inputs: Vec<Vec<u64>> = (0..5)
        .map(|_| (0..50).map(|_| rand_modp(&mut rng)).collect())
        .collect();
    let proof = prove_and_gates(1, &inputs, &[4, 4], sid, &mut rng).unwrap();
    let bytes = proof_to_bytes(&proof);
    let decoded = proof_from_bytes(&bytes).unwrap();
    assert!(proof.equals(&decoded));
}

#[test]
fn test_codec_rejects_bad_streams() {
    let proof = Proof {
        p_coeffs_ss1: vec![vec![1, 2]],
        p_coeffs_ss2: vec![vec![3, 4]],
    };
    let bytes = proof_to_bytes(&proof);
    // truncation
    assert!(matches!(
        proof_from_bytes(&bytes[..bytes.len() - 1]),
        Err(DecodeError::Truncated)
    ));
    assert!(matches!(
        proof_from_bytes(&bytes[..4]),
        Err(DecodeError::Truncated)
    ));
    // trailing garbage
    let mut longer = bytes.clone();
    longer.push(0);
    assert!(matches!(
        proof_from_bytes(&longer),
        Err(DecodeError::TrailingBytes)
    ));
    // an out-of-range word
    let oversized = Proof {
        p_coeffs_ss1: vec![vec![PR]],
        p_coeffs_ss2: vec![vec![0]],
    };
    let bad_bytes = proof_to_bytes(&oversized);
    assert!(matches!(
        proof_from_bytes(&bad_bytes),
        Err(DecodeError::OutOfRange)
    ));
}
