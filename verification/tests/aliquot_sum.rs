use the_algorithms::aliquot_sum;

#[test]
fn one_digit_number() {
    assert_eq!(aliquot_sum(6), 6);
}

#[test]
fn two_digit_number() {
    assert_eq!(aliquot_sum(15), 9);
}

#[test]
fn three_digit_number() {
    assert_eq!(aliquot_sum(343), 57);
}

#[test]
fn zero_and_one_have_no_proper_divisors() {
    assert_eq!(aliquot_sum(0), 0);
    assert_eq!(aliquot_sum(1), 0);
}

#[test]
fn prime_number() {
    assert_eq!(aliquot_sum(13), 1);
}
