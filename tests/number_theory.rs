use brykto::math::number_theory::{extended_euclidean_algorithm, mod_inverse, EuclideanOutput};

#[test]
fn test_extended_euclidean_algorithm() {
    let a = 2357;
    let b = 397;
    let output = extended_euclidean_algorithm(a, b);
    assert_eq!(a * output.1 + b * output.2, output.0);
}

#[test]
fn test_mod_inverse() {
    // Compute 397^-1 = 1 mod 2357
    let a = 2357;
    let b = 397;
    let output = extended_euclidean_algorithm(a, b);

    // u is the inverse.
    assert_eq!((a * output.1) % b, 1);

    let inverse = mod_inverse(b, a);
    assert_eq!(inverse, output.1);
}

#[test]
fn test_mod_inverse_non_coprime() {
    let a = 10;
    let b = 2;

    let inverse = mod_inverse(b, a);
    assert_eq!(inverse, 0);
}

#[test]
fn euclid_with_zero_operands() {
    assert_eq!(extended_euclidean_algorithm(7, 0), EuclideanOutput(7, 1, 0));
    assert_eq!(extended_euclidean_algorithm(0, 5), EuclideanOutput(5, 0, 1));
    assert_eq!(extended_euclidean_algorithm(0, 0), EuclideanOutput(0, 1, 0));
}

#[test]
fn euclid_exact_values() {
    assert_eq!(extended_euclidean_algorithm(240, 46), EuclideanOutput(2, 14, -73));
    assert_eq!(extended_euclidean_algorithm(4, 2), EuclideanOutput(2, 0, 1));
    assert_eq!(extended_euclidean_algorithm(2357, 397).0, 1);
}

#[test]
fn euclid_at_the_largest_inputs() {
    let a = i32::MAX;
    let b = i32::MAX - 1;
    let out = extended_euclidean_algorithm(a, b);
    assert_eq!(out.0, 1);
    assert!(out.1 >= 0 && out.1 < b);
    assert_eq!(a as i64 * out.1 as i64 + b as i64 * out.2 as i64, 1);
}

#[test]
fn mod_inverse_values() {
    // 7 is 1 modulo 3.
    assert_eq!(mod_inverse(3, 7), 1);
    // 3 * 5 = 15 = 2 * 7 + 1.
    assert_eq!(mod_inverse(7, 3), 5);
    assert_eq!(mod_inverse(0, 1), 1);
    assert_eq!(mod_inverse(6, 4), 0);
}

#[test]
fn euclid_with_zero_second_operand_takes_any_first() {
    assert_eq!(extended_euclidean_algorithm(-9, 0), EuclideanOutput(-9, 1, 0));
    assert_eq!(extended_euclidean_algorithm(i32::MIN, 0), EuclideanOutput(i32::MIN, 1, 0));
}

#[test]
fn mod_inverse_modulo_zero() {
    assert_eq!(mod_inverse(0, 1), 1);
    assert_eq!(mod_inverse(0, -4), 0);
    assert_eq!(mod_inverse(0, 5), 0);
}
