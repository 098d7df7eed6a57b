use lattice_arith::utils::{add_vec, generate_random_matrix, inner_product_and_add,
    matrix_mul_vector, mod_inv, transpose_matrix};

#[test]
fn test_add_vec_wraps_and_recenters() {
    let v1 = vec![5, 6, 10];
    let v2 = vec![-1, -2, 4];
    assert_eq!(add_vec(&v1, &v2, 7), vec![4, 4, 0]);
}

#[test]
fn test_inner_product_and_add() {
    let v1 = vec![1, 2, 3];
    let v2 = vec![4, 5, 6];
    // 4 + 10 + 18 = 32, and 32 mod 7 = 4.
    assert_eq!(inner_product_and_add(&v1, &v2, 0, 7), 4);
    // The carry is folded into every term: (32 + 3*1) mod 7 = 0.
    assert_eq!(inner_product_and_add(&v1, &v2, 1, 7), 0);
}

#[test]
fn test_matrix_mul_vector() {
    let a = vec![vec![1, 2, 3], vec![4, 5, 6], vec![7, 8, 9]];
    let v = vec![1, 2, 3];
    // A v = [14, 32, 50], reduced mod 11: [3, 10, 6].
    assert_eq!(matrix_mul_vector(&a, &v, 11), vec![3, 10, 6]);
}

#[test]
fn test_transpose_matrix() {
    let a = vec![vec![1, 2, 3], vec![4, 5, 6]];
    assert_eq!(transpose_matrix(&a), vec![vec![1, 4], vec![2, 5], vec![3, 6]]);
}

#[test]
fn test_mod_inv_exists() {
    // 7 * 3 = 21 = 1 (mod 5).
    assert_eq!(mod_inv(7, 5), Some(3));
    let x = mod_inv(3, 11).unwrap();
    assert_eq!((3 * x).rem_euclid(11), 1);
}

#[test]
fn test_mod_inv_absent() {
    // gcd(4, 6) = 2, so no inverse exists.
    assert_eq!(mod_inv(4, 6), None);
    assert_eq!(mod_inv(0, 5), None);
    assert_eq!(mod_inv(10, 5), None);
}

#[test]
fn test_random_matrix_is_canonical() {
    let a = generate_random_matrix(5, 7, 13);
    assert_eq!(a.len(), 5);
    for row in &a {
        assert_eq!(row.len(), 7);
        assert!(row.iter().all(|&x| 0 <= x && x < 13));
    }
}
