use lattice_arith::pub_lwe::{center_mod, decrypt, encrypt, generate_public_key, Ciphertext,
    SecretKey};
use lattice_arith::utils::{generate_random_bit_vector, generate_random_matrix,
    generate_random_vector};
use rand_distr::Distribution;

fn sample_error_vector(sigma: f64, n: usize) -> Vec<i128> {
    let normal = rand_distr::Normal::new(0.0, sigma).unwrap();
    let mut rng = rand::rng();
    (0..n).map(|_| normal.sample(&mut rng).round() as i128).collect()
}

#[test]
fn test_encrypt_and_decrypt() {
    let q = 11;
    let m = 8;
    let n = 4;

    let a = generate_random_matrix(m, n, q as i128);
    let secret_key = SecretKey { s: generate_random_vector(n, q as i128) };
    let sigma: f64 = q as f64 / 4.0; // q/2/2
    let sampled_error = sample_error_vector(sigma, m);
    let public_key = generate_public_key(&a, &secret_key, &sampled_error, q as i128);
    let message = 1;
    let r = generate_random_bit_vector(m);
    let ciphertext = encrypt(&public_key, &r, message, q as i128);

    let message = decrypt(&ciphertext, &secret_key, q as i128);
    println!("{:?}", message);
}

#[test]
fn test_keygen_literal() {
    // q=11, A=[[1,2,3],[4,5,6],[7,8,9]], s=[1,2,3], e=[1,-1,-1]
    // gives b = A s + e = [4, 9, 5] (mod 11).
    let a = vec![vec![1, 2, 3], vec![4, 5, 6], vec![7, 8, 9]];
    let s = SecretKey { s: vec![1, 2, 3] };
    let e = vec![1, -1, -1];
    let pk = generate_public_key(&a, &s, &e, 11);
    assert_eq!(pk.a, a);
    assert_eq!(pk.b, vec![4, 9, 5]);
}

#[test]
fn test_encrypt_literal() {
    // Encrypting bit 1 with r=[1,0,1] under the key of test_keygen_literal
    // gives u=[8,10,1], v=3.
    let a = vec![vec![1, 2, 3], vec![4, 5, 6], vec![7, 8, 9]];
    let s = SecretKey { s: vec![1, 2, 3] };
    let e = vec![1, -1, -1];
    let pk = generate_public_key(&a, &s, &e, 11);
    let r = vec![1, 0, 1];
    let c = encrypt(&pk, &r, 1, 11);
    assert_eq!(c.u, vec![8, 10, 1]);
    assert_eq!(c.v, 3);
}

#[test]
fn test_decrypt_literal() {
    let s = SecretKey { s: vec![1, 2, 3] };
    let one = Ciphertext { u: vec![8, 10, 1], v: 3 };
    assert_eq!(decrypt(&one, &s, 11), 1);
    let zero = Ciphertext { u: vec![8, 10, 1], v: 9 };
    assert_eq!(decrypt(&zero, &s, 11), 0);
}

#[test]
fn test_center_mod_boundary() {
    // q=11: residues 0..10 center to [0,1,2,3,4,5,-5,-4,-3,-2,-1].
    let expected = vec![0, 1, 2, 3, 4, 5, -5, -4, -3, -2, -1];
    let centered: Vec<i128> = (0..11).map(|v| center_mod(v, 11)).collect();
    assert_eq!(centered, expected);
}

#[test]
fn test_decrypt_threshold() {
    // The decision threshold is |centered| <= q/4: with q=11 a centered
    // value of 2 decodes to 0 and 3 decodes to 1.
    let s = SecretKey { s: vec![0] };
    let at_threshold = Ciphertext { u: vec![0], v: 2 };
    assert_eq!(decrypt(&at_threshold, &s, 11), 0);
    let past_threshold = Ciphertext { u: vec![0], v: 3 };
    assert_eq!(decrypt(&past_threshold, &s, 11), 1);
}

#[test]
fn test_round_trip_statistics() {
    // Bounded-noise regime: q=11, m=8, n=4, sigma=0.5; over 100 trials per
    // bit the decryption failure rate stays under 5%.
    let q: i128 = 11;
    let m = 8;
    let n = 4;
    let sigma = 0.5;
    let trials = 100;
    let mut failures = 0;
    let mut total = 0;
    for bit in [0u8, 1u8] {
        for _ in 0..trials {
            let a = generate_random_matrix(m, n, q);
            let secret_key = SecretKey { s: generate_random_vector(n, q) };
            let e = sample_error_vector(sigma, m);
            let pk = generate_public_key(&a, &secret_key, &e, q);
            let r = generate_random_bit_vector(m);
            let c = encrypt(&pk, &r, bit, q);
            let decoded = decrypt(&c, &secret_key, q);
            total += 1;
            if decoded != bit as i128 {
                failures += 1;
            }
        }
    }
    assert!(failures * 20 <= total, "failure rate too high: {}/{}", failures, total);
}
