use codetracer_circom_recorder::bignum::{input_value_limbs, limbs_text};

#[test]
fn input_values_are_reduced_modulo_the_prime() {
    let prime = [0xFFFF_FFFDu32];
    assert_eq!(input_value_limbs("42", &prime, 2), Some(vec![42, 0]));
    assert_eq!(input_value_limbs("0", &prime, 1), Some(vec![0]));
    assert_eq!(input_value_limbs("4294967295", &prime, 2), Some(vec![2, 0]));
    assert_eq!(input_value_limbs("+1_000", &prime, 1), Some(vec![1000]));
}

#[test]
fn input_values_that_are_not_decimal_are_refused() {
    let prime = [7u32, 1];
    assert_eq!(input_value_limbs("_1", &prime, 2), None);
    assert_eq!(input_value_limbs("", &prime, 2), None);
    assert_eq!(input_value_limbs("-3", &prime, 2), None);
    assert_eq!(input_value_limbs("12a", &prime, 2), None);
    assert_eq!(input_value_limbs("+", &prime, 2), None);
}

#[test]
fn wide_values_span_limbs() {
    let prime = [0u32, 0, 1];
    assert_eq!(input_value_limbs("4294967298", &prime, 3), Some(vec![2, 1, 0]));
}

#[test]
fn limb_values_print_in_decimal() {
    assert_eq!(limbs_text(&[2, 1]), "4294967298");
    assert_eq!(limbs_text(&[]), "0");
    assert_eq!(limbs_text(&[0, 0]), "0");
    assert_eq!(limbs_text(&[123]), "123");
}
