use dzkp::field::PR;
use dzkp::poly::Poly;

#[test]
fn test_zero_coefficients_canonicalize() {
    let p = Poly::from_coefficients_vec(vec![0, 0, 0]);
    assert!(p.is_zero());
    assert_eq!(p.coeffs().len(), 0);
    assert_eq!(p.degree(), 0);
}

#[test]
fn test_from_coefficients_trims() {
    let p = Poly::from_coefficients_vec(vec![1, 2, 0, 0]);
    assert_eq!(p.coeffs(), &[1, 2]);
    assert_eq!(p.degree(), 1);
    let q = Poly::from_coefficients_slice(&[5]);
    assert_eq!(q.degree(), 0);
    assert!(!q.is_zero());
}

#[test]
fn test_evaluate() {
    // 3 + 2x + x^2 at x = 5: 3 + 10 + 25 = 38
    let p = Poly::from_coefficients_vec(vec![3, 2, 1]);
    assert_eq!(p.evaluate(5), 38);
    assert_eq!(p.evaluate(0), 3);
    assert_eq!(Poly::zero().evaluate(7), 0);
    assert_eq!(Poly::one().evaluate(12345), 1);
    // wrap-around: x + 1 at p - 1 gives 0
    let q = Poly::from_coefficients_vec(vec![1, 1]);
    assert_eq!(q.evaluate(PR - 1), 0);
}

#[test]
fn test_add_sub() {
    let a = Poly::from_coefficients_vec(vec![1, 2, 3]);
    let b = Poly::from_coefficients_vec(vec![4, 5]);
    let s = a.add(&b);
    assert_eq!(s.coeffs(), &[5, 7, 3]);
    let d = s.sub(&a);
    assert_eq!(d.coeffs(), &[4, 5]);
    // subtraction negates the higher coefficients of a longer right operand
    let d2 = b.sub(&a);
    assert_eq!(d2.coeffs(), &[3, 3, PR - 3]);
    // cancelling leading terms canonicalizes
    let c = a.sub(&a);
    assert!(c.is_zero());
}

#[test]
fn test_mul() {
    // (1 + x)(1 + x) = 1 + 2x + x^2
    let a = Poly::from_coefficients_vec(vec![1, 1]);
    let sq = a.mul(&a);
    assert_eq!(sq.coeffs(), &[1, 2, 1]);
    let z = a.mul(&Poly::zero());
    assert!(z.is_zero());
}

#[test]
fn test_cmul() {
    let a = Poly::from_coefficients_vec(vec![1, 2]);
    assert_eq!(a.cmul(3).coeffs(), &[3, 6]);
    assert!(a.cmul(0).is_zero());
}
