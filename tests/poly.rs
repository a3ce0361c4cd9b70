use rand::{thread_rng, Rng};
use ttfhe::poly::ResiduePoly;
use ttfhe::N;

#[test]
/// Tests that the monomial multiplication is coherent with monomial multiplication.
fn test_monomial_mult() {
    for _ in 0..1000 {
        let mut monomial_coefs = vec![0u64; N];
        let monomial_non_null_term = thread_rng().gen_range(0..2 * N);

        if monomial_non_null_term < 1024 {
            monomial_coefs[monomial_non_null_term] = 1;
        } else {
            monomial_coefs[monomial_non_null_term % 1024] = 1u64.wrapping_neg();
        }

        let monomial = ResiduePoly {
            coefs: monomial_coefs,
        };

        let polynomial = ResiduePoly::get_random();

        let res_mul = polynomial.mul(&monomial);
        let res_monomial_mul = polynomial.multiply_by_monomial(monomial_non_null_term);

        assert_eq!(res_mul.coefs, res_monomial_mul.coefs);
    }
}

#[test]
fn mul_wraps_negacyclically() {
    // X^{N-1} * X = X^N = -1
    let mut a = vec![0u64; N];
    a[N - 1] = 3;
    let mut b = vec![0u64; N];
    b[1] = 2;
    let r = ResiduePoly { coefs: a }.mul(&ResiduePoly { coefs: b });
    let mut expected = vec![0u64; N];
    expected[0] = 0u64.wrapping_sub(6);
    assert_eq!(r.coefs, expected);
}

#[test]
fn mul_small_polynomials() {
    // (1 + 2X)(3 + X) = 3 + 7X + 2X^2
    let mut a = vec![0u64; N];
    a[0] = 1;
    a[1] = 2;
    let mut b = vec![0u64; N];
    b[0] = 3;
    b[1] = 1;
    let r = ResiduePoly { coefs: a }.mul(&ResiduePoly { coefs: b });
    assert_eq!(&r.coefs[..4], &[3, 7, 2, 0]);
    assert!(r.coefs[3..].iter().all(|&c| c == 0));
}

#[test]
fn add_sub_and_constants_wrap() {
    let mut a = ResiduePoly::default();
    a.coefs[0] = u64::MAX;
    a.coefs[5] = 7;
    let mut b = ResiduePoly::default();
    b.coefs[0] = 2;
    b.coefs[5] = 9;
    let s = a.add(&b);
    assert_eq!(s.coefs[0], 1);
    assert_eq!(s.coefs[5], 16);
    let d = a.sub(&b);
    assert_eq!(d.coefs[0], u64::MAX - 2);
    assert_eq!(d.coefs[5], u64::MAX - 1);
    let mut c = a.clone();
    c.add_assign(&b);
    assert_eq!(c.coefs, s.coefs);
    let e = a.add_constant(3);
    assert_eq!(e.coefs[0], 2);
    assert_eq!(e.coefs[5], 7);
    let mut f = a.clone();
    f.add_constant_assign(3);
    assert_eq!(f.coefs, e.coefs);
}

#[test]
fn multiply_by_monomial_shifts_and_negates() {
    let mut a = ResiduePoly::default();
    a.coefs[0] = 1;
    a.coefs[N - 1] = 2;
    let r = a.multiply_by_monomial(1);
    assert_eq!(r.coefs[1], 1);
    assert_eq!(r.coefs[0], 0u64.wrapping_sub(2));
    let r = a.multiply_by_monomial(N);
    assert_eq!(r.coefs[0], 0u64.wrapping_sub(1));
    assert_eq!(r.coefs[N - 1], 0u64.wrapping_sub(2));
    // X^{2N} = 1
    let r = a.multiply_by_monomial(2 * N);
    assert_eq!(r.coefs, a.coefs);
}

#[test]
fn new_is_zero_and_random_polys_have_n_coefficients() {
    assert_eq!(ResiduePoly::new().coefs, vec![0u64; N]);
    assert_eq!(ResiduePoly::get_random().coefs.len(), N);
    let b = ResiduePoly::get_random_bin();
    assert_eq!(b.coefs.len(), N);
    assert!(b.coefs.iter().all(|&c| c <= 1));
}

