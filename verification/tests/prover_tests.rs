use dzkp::codec::proof_to_bytes;
use dzkp::field::{add_modp, rand_modp, PR};
use dzkp::prover::{
    check_and_gates, num_rounds, prove_and_gates, rounds_with_shares, ProveError, MAX_COMPRESSION,
};
use rand::{thread_rng, Rng};
use std::time::Instant;

#[test]
fn bench_prove_and_gates() {
    let t: usize = 10000;
    let l: usize = 5;
    let ks = [8, 8];
    let party_id: usize = 1;

    println!("T: {}", t);

    let mut rng = thread_rng();
    let sid: usize = rng.gen();

    let inputs: Vec<Vec<u64>> = (0..l)
        .map(|_| (0..t).map(|_| rand_modp(&mut rng)).collect())
        .collect();

    let prove_start = Instant::now();
    let proof = prove_and_gates(party_id, &inputs, &ks, sid, &mut rng).unwrap();
    let prove_time = prove_start.elapsed();
    println!("Proving time: {:?}", prove_time);

    let proof_bytes = proof_to_bytes(&proof);
    println!("Proof length: {} bytes", proof_bytes.len());
}

#[test]
fn test_end_to_end_share_reconstruction() {
    // T = 10000 copies compressed by 8 fold in ceil(log_8 10000) = 5 rounds,
    // and the two share vectors of every round add up to the recomputable
    // round polynomial, which check_and_gates verifies without the
    // random source.
    let t: usize = 10000;
    let ks = [8, 8];
    let mut rng = thread_rng();
    let sid: usize = rng.gen();
    let inputs: Vec<Vec<u64>> = (0..5)
        .map(|_| (0..t).map(|_| rand_modp(&mut rng)).collect())
        .collect();
    let proof = prove_and_gates(1, &inputs, &ks, sid, &mut rng).unwrap();
    assert_eq!(proof.p_coeffs_ss1.len(), 5);
    assert_eq!(num_rounds(t, 8, 8), 5);
    for round in &proof.p_coeffs_ss1 {
        assert_eq!(round.len(), 8);
        for &w in round {
            assert!(w < PR);
        }
    }
    assert!(check_and_gates(&proof, &inputs, &ks, sid));
    // a corrupted share must be rejected
    let mut bad = dzkp::prover::Proof {
        p_coeffs_ss1: proof.p_coeffs_ss1.clone(),
        p_coeffs_ss2: proof.p_coeffs_ss2.clone(),
    };
    bad.p_coeffs_ss2[2][3] = add_modp(bad.p_coeffs_ss2[2][3], 1);
    assert!(!check_and_gates(&bad, &inputs, &ks, sid));
}

#[test]
fn test_deterministic_with_same_shares() {
    // identical inputs and identical injected random shares give
    // byte-identical proofs
    let t: usize = 100;
    let ks = [4, 4];
    let mut rng = thread_rng();
    let sid: usize = 424242;
    let inputs: Vec<Vec<u64>> = (0..5)
        .map(|_| (0..t).map(|_| rand_modp(&mut rng)).collect())
        .collect();
    let rounds = num_rounds(t, 4, 4);
    let ss1s: Vec<Vec<u64>> = (0..rounds)
        .map(|_| (0..4).map(|_| rand_modp(&mut rng)).collect())
        .collect();
    let p1 = rounds_with_shares(&inputs, &ks, sid, &ss1s);
    let p2 = rounds_with_shares(&inputs, &ks, sid, &ss1s);
    assert!(p1.equals(&p2));
    assert_eq!(proof_to_bytes(&p1), proof_to_bytes(&p2));
}

#[test]
fn test_prove_errors() {
    let mut rng = thread_rng();
    let ks = [8, 8];
    let good_row: Vec<u64> = vec![1, 2, 3];
    // wrong number of variables
    let four: Vec<Vec<u64>> = (0..4).map(|_| good_row.clone()).collect();
    assert!(matches!(
        prove_and_gates(1, &four, &ks, 7, &mut rng),
        Err(ProveError::WrongVariableCount)
    ));
    // empty input
    let empty: Vec<Vec<u64>> = (0..5).map(|_| Vec::new()).collect();
    assert!(matches!(
        prove_and_gates(1, &empty, &ks, 7, &mut rng),
        Err(ProveError::EmptyInput)
    ));
    // ragged rows
    let mut ragged: Vec<Vec<u64>> = (0..5).map(|_| good_row.clone()).collect();
    ragged[3].push(9);
    assert!(matches!(
        prove_and_gates(1, &ragged, &ks, 7, &mut rng),
        Err(ProveError::RaggedInput)
    ));
    // a value at or above p
    let mut unreduced: Vec<Vec<u64>> = (0..5).map(|_| good_row.clone()).collect();
    unreduced[0][0] = PR;
    assert!(matches!(
        prove_and_gates(1, &unreduced, &ks, 7, &mut rng),
        Err(ProveError::UnreducedValue)
    ));
    // a schedule that is not two factors
    let five: Vec<Vec<u64>> = (0..5).map(|_| good_row.clone()).collect();
    assert!(matches!(
        prove_and_gates(1, &five, &[8], 7, &mut rng),
        Err(ProveError::BadSchedule)
    ));
    // a factor below 2
    assert!(matches!(
        prove_and_gates(1, &five, &[1, 8], 7, &mut rng),
        Err(ProveError::CompressionTooSmall)
    ));
    // a factor whose shares would overflow the transcript's message cap
    assert!(matches!(
        prove_and_gates(1, &five, &[MAX_COMPRESSION + 1, 8], 7, &mut rng),
        Err(ProveError::CompressionTooLarge)
    ));
    // success on well-shaped inputs
    assert!(prove_and_gates(1, &five, &ks, 7, &mut rng).is_ok());
}
