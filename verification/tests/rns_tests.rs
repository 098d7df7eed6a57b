use lattice_arith::rns::{add_res, construct, deconstruct, mul_res, sub_res};
use lattice_arith::utils::generate_primes;
use rand::Rng;

#[test]
fn test_construct_and_deconstruct() {
    let rounds = 100;
    let mut rng = rand::rng();
    for _ in 0..rounds {
        // Generate a random 5-digit number
        let x: i128 = rng.random_range(10000..100000);

        let k = 20;
        let q = generate_primes(k);

        let x_i = construct(x, &q);

        let actual = deconstruct(x_i);
        assert_eq!(x, actual);
    }
}

#[test]
fn test_add() {
    let rounds = 100;
    let mut rng = rand::rng();
    for _ in 0..rounds {
        // Generate a random 5-digit number
        let x: i128 = rng.random_range(10000..100000);
        let y: i128 = rng.random_range(10000..100000);

        let k = 20;
        let q = generate_primes(k);

        let x_i = construct(x, &q);
        let y_i = construct(y, &q);

        let res_from_add = add_res(&x_i, &y_i);
        let result = deconstruct(res_from_add);

        let big_q = q.iter().copied().reduce(|acc, e| acc * e).unwrap();
        let actual = (x + y).rem_euclid(big_q);

        assert_eq!(result, actual);
    }
}

#[test]
fn test_sub() {
    let rounds = 100;
    let mut rng = rand::rng();
    for _ in 0..rounds {
        // Generate a random 5-digit number
        let x: i128 = rng.random_range(10000..100000);
        let y: i128 = rng.random_range(10000..100000);

        let k = 20;
        let q = generate_primes(k);

        let x_i = construct(x, &q);
        let y_i = construct(y, &q);

        let res_from_sub = sub_res(&x_i, &y_i);
        let result = deconstruct(res_from_sub);

        let big_q = q.iter().copied().reduce(|acc, e| acc * e).unwrap();
        let actual = (x - y).rem_euclid(big_q);

        assert_eq!(result, actual);
    }
}

#[test]
fn test_mul() {
    let rounds = 100;
    let mut rng = rand::rng();
    for _ in 0..rounds {
        // Generate a random 5-digit number
        let x: i128 = rng.random_range(10000..100000);
        let y: i128 = rng.random_range(10000..100000);

        let k = 20;
        let q = generate_primes(k);

        let x_i = construct(x, &q);
        let y_i = construct(y, &q);

        let res_from_mul = mul_res(&x_i, &y_i);
        let result = deconstruct(res_from_mul);

        let big_q = q.iter().copied().reduce(|acc, e| acc * e).unwrap();
        let actual = (x * y).rem_euclid(big_q);

        assert_eq!(result, actual);
    }
}

#[test]
fn test_generate_primes_first_twenty() {
    let q = generate_primes(20);
    assert_eq!(
        q,
        vec![2, 3, 5, 7, 11, 13, 17, 19, 23, 29, 31, 37, 41, 43, 47, 53, 59, 61, 67, 71]
    );
}

#[test]
fn test_construct_residues() {
    let q = vec![3, 5, 7];
    let v = construct(23, &q);
    assert_eq!(v.residues, vec![2, 3, 2]);
    assert_eq!(v.moduli, q);
    // A negative input still yields canonical residues.
    let w = construct(-1, &q);
    assert_eq!(w.residues, vec![2, 4, 6]);
}

#[test]
fn test_residues_stay_canonical() {
    let q = generate_primes(6);
    let x_i = construct(87654, &q);
    let y_i = construct(65432, &q);
    for v in [add_res(&x_i, &y_i), sub_res(&y_i, &x_i), mul_res(&x_i, &y_i)] {
        for (r, m) in v.residues.iter().zip(v.moduli.iter()) {
            assert!(0 <= *r && r < m);
        }
    }
}
