use fingerprint::{
    codeword_lagrange, codeword_polynomial, evaluate_lagrange, evaluate_polynomial,
    freivalds_test, mod_inv, mul_mat_vec, simple_hash,
};

#[test]
fn test_simple_hash() {
    assert_eq!(simple_hash(3, 5, 7, 11), (3 * 7 + 5) % 11);
}

#[test]
fn test_evaluate_polynomial_known() {
    let p = 11;
    let a = vec![2, 1, 1]; // message a
    // f(x) = 2 + x + x^2
    assert_eq!(evaluate_polynomial(&a, p, 0), 2);
    assert_eq!(evaluate_polynomial(&a, p, 1), 4 % p);
    assert_eq!(evaluate_polynomial(&a, p, 2), 8 % p);
}

#[test]
fn test_codeword_polynomial_full() {
    let p = 11;
    let a = vec![2, 1, 1];
    let expected_a = vec![2, 4, 8, 3, 0, 10, 0, 3, 8, 4, 2];
    let cw_a = codeword_polynomial(&a, p);
    assert_eq!(cw_a, expected_a);

    let b = vec![2, 1, 0];
    let expected_b = vec![2, 3, 4, 5, 6, 7, 8, 9, 10, 0, 1];
    let cw_b = codeword_polynomial(&b, p);
    assert_eq!(cw_b, expected_b);
}

#[test]
fn test_codeword_lagrange_same() {
    let p = 11;
    let xs = vec![0, 1, 2];
    let a = vec![2, 1, 1];
    let expected_a = vec![2, 1, 1, 2, 4, 7, 0, 5, 0, 7, 4];
    let cw_a = codeword_lagrange(&a, &xs, p);
    assert_eq!(cw_a, expected_a);

    let b = vec![2, 1, 0];
    let expected_b = vec![2, 1, 0, 10, 9, 8, 7, 6, 5, 4, 3];
    let cw_b = codeword_lagrange(&b, &xs, p);
    assert_eq!(cw_b, expected_b);
}

#[test]
fn test_freivalds_correct() {
    let a = vec![vec![1, 2], vec![3, 4]];
    let b = vec![vec![2, 0], vec![1, 2]];
    // c = a * b = [[4,4],[10,8]]
    let c = vec![vec![4, 4], vec![10, 8]];
    assert!(freivalds_test(&a, &b, &c, 5));
}

#[test]
fn test_freivalds_incorrect() {
    let a = vec![vec![1, 2], vec![3, 4]];
    let b = vec![vec![2, 0], vec![1, 2]];
    let c_wrong = vec![vec![9, 9], vec![9, 9]];
    assert!(!freivalds_test(&a, &b, &c_wrong, 5));
}

#[test]
fn test_freivalds_zero_iterations() {
    // With no rounds there is nothing to check, so the answer is `true`
    // even for a wrong product.
    let a = vec![vec![1, 2], vec![3, 4]];
    let b = vec![vec![2, 0], vec![1, 2]];
    let c_wrong = vec![vec![9, 9], vec![9, 9]];
    assert!(freivalds_test(&a, &b, &c_wrong, 0));
}

#[test]
fn test_cross_representation_codewords_agree() {
    // The same polynomial f(x) = 2 + x + x^2 described both ways: by its
    // coefficients and by its values at the anchors 0, 1, 2.
    let p = 11;
    let message = vec![2, 1, 1];
    let anchors = vec![0, 1, 2];
    let values: Vec<u64> = anchors
        .iter()
        .map(|&x| evaluate_polynomial(&message, p, x))
        .collect();
    assert_eq!(values, vec![2, 4, 8]);
    let by_coefficients = codeword_polynomial(&message, p);
    let by_interpolation = codeword_lagrange(&values, &anchors, p);
    assert_eq!(by_coefficients, by_interpolation);
}

#[test]
fn test_lagrange_identity_at_anchors() {
    let p = 11;
    let anchors = vec![3, 5, 8, 10];
    let values = vec![7, 0, 4, 9];
    for i in 0..anchors.len() {
        assert_eq!(
            evaluate_lagrange(&values, &anchors, p, anchors[i]),
            values[i]
        );
    }
}

#[test]
fn test_evaluate_polynomial_at_zero() {
    assert_eq!(evaluate_polynomial(&[5, 3, 2], 7, 0), 5);
    assert_eq!(evaluate_polynomial(&[9, 1], 7, 0), 2); // 9 mod 7
    assert_eq!(evaluate_polynomial(&[], 7, 0), 0);
}

#[test]
fn test_empty_message_evaluates_to_zero_everywhere() {
    let p = 11;
    for x in 0..p {
        assert_eq!(evaluate_polynomial(&[], p, x), 0);
    }
    assert_eq!(codeword_polynomial(&[], p), vec![0; 11]);
}

#[test]
fn test_mod_inv_exact_value() {
    // 3^9 mod 11 = 19683 mod 11 = 4
    assert_eq!(mod_inv(3, 11), 4);
    assert_eq!(mod_inv(1, 2), 1);
}

#[test]
fn test_mod_inv_is_inverse() {
    for p in [2u64, 3, 5, 7, 11, 13, 101] {
        for a in 1..p {
            assert_eq!((a * mod_inv(a, p)) % p, 1, "a = {a}, p = {p}");
        }
    }
}

#[test]
fn test_simple_hash_wraps() {
    // u64::MAX * 2 wraps to 2^64 - 2; adding 5 wraps to 3.
    assert_eq!(simple_hash(u64::MAX, 5, 2, 7), 3);
}

#[test]
fn test_mul_mat_vec_known() {
    let m = vec![vec![1, 2], vec![3, 4]];
    assert_eq!(mul_mat_vec(&m, &[1, 1]), vec![3, 7]);
    // A wrapping dot product: (2^64 - 1) * 2 + 1 * 3 wraps to 1.
    let w = vec![vec![u64::MAX, 1]];
    assert_eq!(mul_mat_vec(&w, &[2, 3]), vec![1]);
}

#[test]
fn test_evaluate_lagrange_single_point() {
    // One anchor: the constant polynomial.
    let p = 13;
    assert_eq!(evaluate_lagrange(&[6], &[4], p, 0), 6);
    assert_eq!(evaluate_lagrange(&[6], &[4], p, 12), 6);
}
