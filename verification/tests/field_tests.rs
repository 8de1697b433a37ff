use dzkp::field::{add_modp, inner_productp, modp, mul_modp, neg_modp, rand_modp, sub_modp, PR};
use dzkp::euclid::{egcd, inverse};
use rand::{thread_rng, Rng};

#[test]
fn test_modp() {
    let pr: u64 = 2305843009213693951;
    assert_eq!(pr, PR);
    let mut rng = thread_rng();
    let n = 100;
    for _ in 0..n {
        let a: u64 = rng.gen();
        assert_eq!(a % pr, modp(a));
    }
}

#[test]
fn test_add_sub_modp() {
    let mut rng = thread_rng();
    let n = 100;
    for _ in 0..n {
        let a: u64 = rand_modp(&mut rng);
        let b: u64 = rand_modp(&mut rng);
        let c: u64 = add_modp(a, b);
        let d: u64 = sub_modp(c, b);
        let e: u64 = sub_modp(c, a);
        assert_eq!(d, a);
        assert_eq!(e, b);
    }
}

#[test]
fn test_mul_inverse() {
    let mut rng = thread_rng();
    let n = 100;
    for _ in 0..n {
        let a: u64 = rand_modp(&mut rng);
        let b = inverse(a);
        let c = mul_modp(a, b);
        assert_eq!(c, 1);
    }
}

#[test]
fn test_field_exact_values() {
    assert_eq!(modp(PR), 0);
    assert_eq!(modp(PR + 1), 1);
    assert_eq!(modp(u64::MAX), u64::MAX % PR);
    assert_eq!(add_modp(PR - 1, 1), 0);
    assert_eq!(add_modp(PR - 1, 2), 1);
    assert_eq!(sub_modp(0, 1), PR - 1);
    assert_eq!(sub_modp(5, 5), 0);
    assert_eq!(neg_modp(0), 0);
    assert_eq!(neg_modp(1), PR - 1);
    assert_eq!(mul_modp(PR - 1, PR - 1), 1);
    assert_eq!(mul_modp(0, 123), 0);
    assert_eq!(mul_modp(1 << 31, 1 << 31), 2);
}

#[test]
fn test_mul_matches_wide_reduction() {
    let mut rng = thread_rng();
    for _ in 0..100 {
        let a = rand_modp(&mut rng);
        let b = rand_modp(&mut rng);
        let expected = ((a as u128 * b as u128) % PR as u128) as u64;
        assert_eq!(mul_modp(a, b), expected);
    }
}

#[test]
fn test_inner_product() {
    let left: Vec<u64> = vec![1, 2, 3];
    let right: Vec<u64> = vec![4, 5, 6];
    assert_eq!(inner_productp(&left, &right), 32);
    let empty: Vec<u64> = Vec::new();
    assert_eq!(inner_productp(&empty, &empty), 0);
    // a batch longer than the 63-term reduction window
    let long1: Vec<u64> = (0..200).map(|i| PR - 1 - i).collect();
    let long2: Vec<u64> = (0..200).map(|i| PR - 2 - i).collect();
    let mut expected: u128 = 0;
    for i in 0..200usize {
        expected = (expected + long1[i] as u128 * long2[i] as u128 % PR as u128) % PR as u128;
    }
    assert_eq!(inner_productp(&long1, &long2), expected as u64);
}

#[test]
fn test_egcd_bezout() {
    let (g, x, _y) = egcd(12, 18);
    assert_eq!(g, 6);
    // x * 12 + y * 18 == 6 (mod p); with small numbers check gcd only
    let (g2, x2, _) = egcd(7, PR);
    assert_eq!(g2, 1);
    assert_eq!(mul_modp(7, x2), 1);
    let _ = x;
}
