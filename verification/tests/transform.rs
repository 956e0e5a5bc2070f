use polycommit::fft::butterfly;
use polycommit::fft::evaluate_polynomial_fft;
use polycommit::fft::evaluate_polynomial_naive;
use polycommit::fft::evaluate_polynomial_with_one_split;
use polycommit::fft::halve_domain;
use polycommit::fft::ifft;
use polycommit::fft::mod_exp;
use polycommit::fft::split_by_parity;

const MODULUS: u64 = 337;
const ROOT_OF_UNITY: u64 = 85;

fn domain() -> Vec<u64> {
    (0..8).map(|i| mod_exp(ROOT_OF_UNITY, i, MODULUS)).collect()
}

fn polynomial() -> Vec<u64> {
    vec![3, 1, 4, 1, 5, 9, 2, 6]
}

#[test]
fn mod_exp_exact_values() {
    assert_eq!(mod_exp(2, 10, 1000), 24);
    assert_eq!(mod_exp(85, 8, 337), 1);
    assert_eq!(mod_exp(85, 4, 337), 336);
    assert_eq!(mod_exp(85, 2, 337), 148);
    assert_eq!(mod_exp(3, 0, 7), 1);
    assert_eq!(mod_exp(0, 0, 7), 1);
    assert_eq!(mod_exp(0, 5, 7), 0);
    assert_eq!(mod_exp(10, 1, 7), 3);
    assert_eq!(mod_exp(u64::MAX, 2, 1 << 32), 1);
    assert_eq!(mod_exp(8, 335, 337), 295);
}

#[test]
fn mod_exp_with_modulus_one() {
    assert_eq!(mod_exp(5, 0, 1), 1);
    assert_eq!(mod_exp(5, 1, 1), 0);
    assert_eq!(mod_exp(5, 6, 1), 0);
}

#[test]
fn domain_is_the_powers_of_the_root() {
    assert_eq!(domain(), vec![1, 85, 148, 111, 336, 252, 189, 226]);
}

#[test]
fn naive_evaluation_exact_values() {
    let result = evaluate_polynomial_naive(&polynomial(), &domain(), MODULUS);
    assert_eq!(result, vec![31, 70, 109, 74, 334, 181, 232, 4]);
    assert_eq!(evaluate_polynomial_naive(&vec![1, 2, 3], &vec![0, 1, 2, 10], 7), vec![1, 6, 3, 6]);
    assert_eq!(evaluate_polynomial_naive(&vec![], &vec![4, 5], 7), vec![0, 0]);
    assert_eq!(evaluate_polynomial_naive(&vec![1, 2], &vec![], 7), Vec::<u64>::new());
    assert_eq!(evaluate_polynomial_naive(&vec![5, 2], &vec![3], 1), vec![0]);
}

#[test]
fn split_by_parity_separates_even_and_odd_degrees() {
    assert_eq!(split_by_parity(&polynomial()), (vec![3, 4, 5, 2], vec![1, 1, 9, 6]));
    assert_eq!(split_by_parity(&vec![7, 8, 9]), (vec![7, 9], vec![8]));
    assert_eq!(split_by_parity(&vec![7]), (vec![7], vec![]));
    assert_eq!(split_by_parity(&vec![]), (vec![], vec![]));
}

#[test]
fn halve_domain_squares_the_first_half() {
    assert_eq!(halve_domain(&domain(), MODULUS), vec![1, 148, 336, 189]);
    assert_eq!(halve_domain(&vec![3, 4, 5], 7), vec![2]);
    assert_eq!(halve_domain(&vec![3], 7), Vec::<u64>::new());
}

#[test]
fn butterfly_joins_the_halves() {
    // (10 + 3*4) mod 7, (11 + 5*6) mod 7, then (10 + 7 - 5) mod 7, (11 + 7 - 2) mod 7
    assert_eq!(butterfly(&vec![10, 11], &vec![4, 6], &vec![3, 5, 9], 7), vec![1, 6, 5, 2]);
    assert_eq!(butterfly(&vec![10, 11], &vec![4], &vec![3, 5, 9], 7), vec![1, 5]);
    assert_eq!(butterfly(&vec![10, 11], &vec![4, 6], &vec![], 7), Vec::<u64>::new());
}

#[test]
fn one_split_agrees_with_naive_evaluation() {
    let result = evaluate_polynomial_with_one_split(&polynomial(), &domain(), MODULUS);
    assert_eq!(result, evaluate_polynomial_naive(&polynomial(), &domain(), MODULUS));
    // on a domain that is not made of roots of unity the second half is at the negatives
    let result = evaluate_polynomial_with_one_split(&vec![1, 2, 3], &vec![2, 3, 4, 5], 7);
    let direct = evaluate_polynomial_naive(&vec![1, 2, 3], &vec![2, 3, 5, 4], 7);
    assert_eq!(result, direct);
    assert_eq!(result, vec![3, 6, 2, 1]);
}

#[test]
fn transform_agrees_with_naive_evaluation() {
    let result = evaluate_polynomial_fft(&polynomial(), &domain(), MODULUS);
    assert_eq!(result, vec![31, 70, 109, 74, 334, 181, 232, 4]);
    assert_eq!(result, evaluate_polynomial_naive(&polynomial(), &domain(), MODULUS));
}

#[test]
fn transform_of_one_coefficient_is_the_coefficient() {
    assert_eq!(evaluate_polynomial_fft(&vec![1000], &vec![1, 2, 3], 7), vec![1000]);
    assert_eq!(evaluate_polynomial_fft(&vec![5], &vec![], 7), vec![5]);
}

#[test]
fn transform_on_short_inputs() {
    // two coefficients, one point: a0 + x a1 and a0 - x a1
    assert_eq!(evaluate_polynomial_fft(&vec![3, 4], &vec![2], 7), vec![4, 2]);
    assert_eq!(evaluate_polynomial_fft(&vec![3, 4], &vec![], 7), Vec::<u64>::new());
    // three coefficients: the odd half has one value, so one butterfly
    assert_eq!(evaluate_polynomial_fft(&vec![1, 2, 3], &vec![2, 3], 7), vec![3, 2]);
}

#[test]
fn inverse_transform_recovers_the_polynomial() {
    let values = evaluate_polynomial_fft(&polynomial(), &domain(), MODULUS);
    assert_eq!(ifft(&values, &domain(), MODULUS), polynomial());
    // the domain is the powers of a root whose 4th power is -1, and the factor
    // is the inverse of the number of points
    assert_eq!(mod_exp(ROOT_OF_UNITY, 4, MODULUS), MODULUS - 1);
    assert_eq!(8 * mod_exp(8, MODULUS - 2, MODULUS) % MODULUS, 1);
}

#[test]
fn inverse_transform_on_other_domains() {
    // 4 is a 4th root of unity modulo 17: 4^2 = 16 = -1
    let domain: Vec<u64> = (0..4).map(|i| mod_exp(4, i, 17)).collect();
    assert_eq!(domain, vec![1, 4, 16, 13]);
    for polynomial in [vec![0, 0, 0, 0], vec![1, 2, 3, 4], vec![16, 0, 5, 11]] {
        let values = evaluate_polynomial_fft(&polynomial, &domain, 17);
        assert_eq!(values, evaluate_polynomial_naive(&polynomial, &domain, 17));
        assert_eq!(ifft(&values, &domain, 17), polynomial);
    }
    // two points: 16 = -1 modulo 17
    let values = evaluate_polynomial_fft(&vec![3, 9], &vec![1, 16], 17);
    assert_eq!(values, vec![12, 11]);
    assert_eq!(ifft(&values, &vec![1, 16], 17), vec![3, 9]);
}

#[test]
fn inverse_transform_exact_values() {
    // the transform of [3, 4] over [1, 6] modulo 7 is [0, 6]; 2^5 mod 7 = 4
    assert_eq!(evaluate_polynomial_fft(&vec![3, 4], &vec![1, 6], 7), vec![0, 6]);
    assert_eq!(ifft(&vec![3, 4], &vec![1, 6], 7), vec![0, 3]);
    assert_eq!(ifft(&vec![5], &vec![1, 6], 7), vec![6]);
    assert_eq!(ifft(&vec![5], &vec![1, 6], 2), vec![1]);
}
