use dzkp::field::{add_modp, mul_modp, rand_modp};
use dzkp::interpolation::{get_lagrange_bases, interpolate};
use rand::thread_rng;
use std::time::Instant;

#[test]
fn test_lag_bases() {
    let n = 100u64;
    let lag_bases = get_lagrange_bases(n);
    for i in 0..n {
        let y = lag_bases[i as usize].evaluate(i);
        assert_eq!(y, 1);
        for j in 0..n {
            if j != i {
                let y = lag_bases[i as usize].evaluate(j);
                assert_eq!(y, 0);
            }
        }
    }
}

#[test]
fn test_interpolation() {
    let mut rng = thread_rng();
    let n = 100u64;

    let evals: Vec<u64> = (0..n).map(|_| rand_modp(&mut rng)).collect();
    let lag_bases = get_lagrange_bases(n);
    let poly = interpolate(&lag_bases, &evals);

    for i in 0..n {
        let y = poly.evaluate(i);
        assert_eq!(evals[i as usize], y);
    }
}

#[test]
fn test_interpolation_zero_padding() {
    // fewer evaluations than points: the missing ones read back as zero
    let lag_bases = get_lagrange_bases(4);
    let evals: Vec<u64> = vec![7, 9];
    let poly = interpolate(&lag_bases, &evals);
    assert_eq!(poly.evaluate(0), 7);
    assert_eq!(poly.evaluate(1), 9);
    assert_eq!(poly.evaluate(2), 0);
    assert_eq!(poly.evaluate(3), 0);
}

#[test]
fn bench_interpolation() {
    let mut rng = thread_rng();
    let t: usize = 100000;
    let k: usize = 16;

    let evals: Vec<Vec<u64>> = (0..t)
        .map(|_| (0..k).map(|_| rand_modp(&mut rng)).collect())
        .collect();
    let lag_bases = get_lagrange_bases(k as u64);

    let start = Instant::now();
    for i in 0..t {
        let _poly = interpolate(&lag_bases, &evals[i]);
    }
    let time1 = start.elapsed();

    let evals2: Vec<Vec<u64>> = (0..t)
        .map(|_| (0..k).map(|_| rand_modp(&mut rng)).collect())
        .collect();
    let mut res = 0u64;
    let start = Instant::now();
    for i in 0..t {
        for j in 0..k {
            res = add_modp(res, mul_modp(evals[i][j], evals2[i][j]));
        }
    }
    let time2 = start.elapsed();
    println!("res: {:?}", res);

    println!("T: {:?}", t);
    println!("k: {:?}", k);
    println!("Interpolate time: {:?}", time1);
    println!("Dot prod time: {:?}", time2);
}
