use dzkp::field::{rand_modp, PR};
use dzkp::prover::ProveError;
use dzkp::prover3::{check_and_gates, evaluate_base, get_bases, matrix_mult, prove_and_gates};
use rand::{thread_rng, Rng};

#[test]
fn test_extension_matrix_extends_evaluations() {
    // for the polynomial f(x) = 2 + 3x over points {0, 1}, the extension
    // matrix for n = 2 must produce f(2) = 8 from [f(0), f(1)]
    let bases = get_bases(2);
    assert_eq!(bases.len(), 1);
    let values: Vec<u64> = vec![2, 5];
    let extended = matrix_mult(&bases, &values);
    assert_eq!(extended, vec![8]);
}

#[test]
fn test_evaluate_base_matches_direct_evaluation() {
    // f(x) = 7 + x over {0, 1}: the coefficient row at r recombines
    // [f(0), f(1)] into f(r)
    let r = 12345u64;
    let row = evaluate_base(2, r);
    let f0 = 7u64;
    let f1 = 8u64;
    let expected = (7 + r) % PR;
    let got = dzkp::field::add_modp(
        dzkp::field::mul_modp(row[0], f0),
        dzkp::field::mul_modp(row[1], f1),
    );
    assert_eq!(got, expected);
    // at a grid point the row is a unit vector
    let unit = evaluate_base(4, 2);
    assert_eq!(unit, vec![0, 0, 1, 0]);
}

#[test]
fn test_pointwise_prover_runs_and_terminates() {
    let t: usize = 1000;
    let ks = [8, 8];
    let mut rng = thread_rng();
    let sid: usize = rng.gen();
    let inputs: Vec<Vec<u64>> = (0..4)
        .map(|_| (0..t).map(|_| rand_modp(&mut rng)).collect())
        .collect();
    let proof = prove_and_gates(1, &inputs, &ks, sid, &mut rng).unwrap();
    // 2T = 2000 doubled entries: 250 chunks, then 32, 4, 1: four rounds
    assert_eq!(proof.p_coeffs_ss1.len(), 4);
    for round in &proof.p_coeffs_ss1 {
        assert_eq!(round.len(), 15);
    }
    for round in &proof.p_coeffs_ss2 {
        assert_eq!(round.len(), 15);
        for &w in round {
            assert!(w < PR);
        }
    }
    assert!(check_and_gates(&proof, &inputs, &ks, sid));
    let mut bad = dzkp::prover3::Proof {
        p_coeffs_ss1: proof.p_coeffs_ss1.clone(),
        p_coeffs_ss2: proof.p_coeffs_ss2.clone(),
    };
    bad.p_coeffs_ss2[1][2] ^= 1;
    assert!(!check_and_gates(&bad, &inputs, &ks, sid));
}

#[test]
fn test_pointwise_prover_errors() {
    let mut rng = thread_rng();
    let good_row: Vec<u64> = vec![1, 2, 3];
    let five: Vec<Vec<u64>> = (0..5).map(|_| good_row.clone()).collect();
    assert!(matches!(
        prove_and_gates(1, &five, &[8, 8], 7, &mut rng),
        Err(ProveError::WrongVariableCount)
    ));
    let four: Vec<Vec<u64>> = (0..4).map(|_| good_row.clone()).collect();
    assert!(prove_and_gates(1, &four, &[8, 8], 7, &mut rng).is_ok());
}
