use lattice_arith::polynomial::Polynomial;

#[test]
fn test_polynomial_construction() {
    let poly = Polynomial::new(8);
    assert_eq!(poly.degree, 8);
    assert_eq!(poly.coefficients, vec![0u64; 8]);

    let const_poly = Polynomial::constant(42, 8);
    assert_eq!(const_poly.coefficients[0], 42);
    assert_eq!(const_poly.coefficients[1..], vec![0u64; 7]);

    let from_vec = Polynomial::from_coeffs(vec![1, 2, 3, 4], 100);
    assert_eq!(from_vec.coefficients, vec![1, 2, 3, 4]);
    assert_eq!(from_vec.degree, 4);
}

#[test]
fn test_polynomial_addition() {
    let p1 = Polynomial::from_coeffs(vec![1, 2, 3], 100);
    let p2 = Polynomial::from_coeffs(vec![4, 5, 6], 100);
    let sum = p1.add(&p2, 100);

    assert_eq!(sum.coefficients, vec![5, 7, 9]);
    assert_eq!(sum.degree, 3);

    // Test modular overflow
    let p3 = Polynomial::from_coeffs(vec![90, 80], 100);
    let p4 = Polynomial::from_coeffs(vec![20, 30], 100);
    let sum2 = p3.add(&p4, 100);
    assert_eq!(sum2.coefficients, vec![10, 10]);
}

#[test]
fn test_polynomial_subtraction() {
    let p1 = Polynomial::from_coeffs(vec![10, 20, 30], 100);
    let p2 = Polynomial::from_coeffs(vec![1, 2, 3], 100);
    let diff = p1.subtract(&p2, 100);

    assert_eq!(diff.coefficients, vec![9, 18, 27]);
    assert_eq!(diff.degree, 3);

    // Test underflow
    let p3 = Polynomial::from_coeffs(vec![5, 10], 100);
    let p4 = Polynomial::from_coeffs(vec![10, 20], 100);
    let diff2 = p3.subtract(&p4, 100);
    assert_eq!(diff2.coefficients, vec![95, 90]);
}

#[test]
fn test_polynomial_multiplication() {
    let p1 = Polynomial::from_coeffs(vec![1, 2], 100);
    let p2 = Polynomial::from_coeffs(vec![3, 4], 100);
    let product = p1.multiply(&p2, 100);

    // (1 + 2x) * (3 + 4x) = 3 + 10x + 8x^2; multiplication is cyclic
    // (mod x^2 - 1), so the 8x^2 term wraps into slot 0: 11 + 10x.
    println!("Product: {:?}", product.coefficients);
    let expected_coeffs = vec![11, 10];
    assert_eq!(product.coefficients[..2], expected_coeffs);
    assert_eq!(product.degree, 2);
}

#[test]
fn test_negacyclic_properties() {
    // Test negacyclic multiplication for x^4 + 1
    let p1 = Polynomial::from_coeffs(vec![0, 0, 0, 1], 100); // x^3
    let p2 = Polynomial::from_coeffs(vec![0, 0, 0, 1], 100); // x^3

    let result = p1.negacyclic_multiply(&p2, 100);

    // x^3 * x^3 = x^6 = x^2 * (x^4 + 1) - x^2 = -x^2 mod (x^4 + 1)
    let expected_coeff = 100 - 1;
    assert_eq!(result.coefficients, vec![0, 0, expected_coeff, 0]);
}

#[test]
fn test_random_generation() {
    let uniform_poly = Polynomial::random_uniform(100, 1000);
    assert_eq!(uniform_poly.degree, 100);
    assert!(uniform_poly.coefficients.iter().all(|&x| x < 1000));

    let binary_poly = Polynomial::random_binary(50);
    assert_eq!(binary_poly.degree, 50);
    assert!(binary_poly.coefficients.iter().all(|&x| x == 0 || x == 1));
}

#[test]
fn test_negate() {
    let poly = Polynomial::from_coeffs(vec![10, 20, 30], 100);
    let negated = poly.negate(100);

    assert_eq!(negated.coefficients, vec![90, 80, 70]);
}

#[test]
fn test_norm() {
    let poly = Polynomial::from_coeffs(vec![10, 50, 30, 70], 100);
    assert_eq!(poly.norm(), 70);

    let zero_poly = Polynomial::new(4);
    assert_eq!(zero_poly.norm(), 0);
}

#[test]
fn test_mod_reduce() {
    let mut poly = Polynomial::from_coeffs(vec![150, 250, 350], 100);
    poly.mod_reduce(100);

    assert_eq!(poly.coefficients, vec![50, 50, 50]);
}

#[test]
fn test_uniform_trivial_modulus_gives_zero() {
    // With modulus 1 the only canonical residue is 0, so the sampler must
    // return the zero polynomial; this fails if the underlying range
    // sampler ever returns its bound.
    let poly = Polynomial::random_uniform(4, 1);
    assert_eq!(poly.coefficients, vec![0u64; 4]);
}

#[test]
fn test_cyclic_wraparound() {
    // (x + 1) * (x + 1) mod (x^2 - 1): x^2 wraps to slot 0, so the result
    // is 2 + 2x.
    let p1 = Polynomial::from_coeffs(vec![1, 1], 100);
    let p2 = Polynomial::from_coeffs(vec![1, 1], 100);
    let product = p1.multiply(&p2, 100);
    assert_eq!(product.coefficients, vec![2, 2]);
}
