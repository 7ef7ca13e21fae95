use whir::bn254::FieldBn256;
use whir::field::PrimeField;
use whir::fold::compute_fold;
use whir::poly::{eq_poly_outside, expand_randomness, inner_product, CoefficientList, MultilinearPoint};
use whir::sumcheck::SumcheckPolynomial;

type F = FieldBn256;

fn f(x: u64) -> F {
    F::from_u64(x)
}

fn fs(xs: &[u64]) -> Vec<F> {
    xs.iter().map(|x| f(*x)).collect()
}

#[test]
fn multilinear_values() {
    // 1 + 2 y + 3 x + 4 x y
    let c = CoefficientList::new(fs(&[1, 2, 3, 4]));
    assert_eq!(c.evaluate(&MultilinearPoint(fs(&[10, 100]))), f(1 + 200 + 30 + 4000));
    assert_eq!(CoefficientList::new(fs(&[7])).evaluate(&MultilinearPoint(vec![])), f(7));
}

#[test]
fn univariate_values() {
    let c = CoefficientList::new(fs(&[1, 2, 3]));
    assert_eq!(c.evaluate_at_univariate(&fs(&[0, 1, 10])), fs(&[1, 6, 321]));
}

#[test]
fn points_of_one_variable() {
    let x = f(3);
    let point = MultilinearPoint::expand_from_univariate(x, 3);
    assert_eq!(point.0, fs(&[81, 9, 3]));
    let c = CoefficientList::new(fs(&[1, 2, 3, 4, 5, 6, 7, 8]));
    assert_eq!(c.evaluate(&point), c.evaluate_at_univariate(&vec![x])[0]);
    assert!(MultilinearPoint::expand_from_univariate(x, 0).0.is_empty());
}

#[test]
fn equality_polynomial() {
    let eq = |a: &[u64], b: &[u64]| eq_poly_outside(&MultilinearPoint(fs(a)), &MultilinearPoint(fs(b)));
    assert_eq!(eq(&[1, 0], &[1, 0]), f(1));
    assert_eq!(eq(&[1, 0], &[1, 1]), f(0));
    assert_eq!(eq(&[], &[]), f(1));
    // (2 * 3 + 1 * 2) * (5 * 7 + 4 * 6)
    assert_eq!(eq(&[2, 5], &[3, 7]), f(8 * 59));
}

#[test]
fn combinations() {
    assert_eq!(expand_randomness(f(3), 4), fs(&[1, 3, 9, 27]));
    assert!(expand_randomness(f(3), 0).is_empty());
    assert_eq!(inner_product(&fs(&[1, 2, 3]), &fs(&[4, 5])), f(14));
    assert_eq!(inner_product::<F>(&vec![], &fs(&[4, 5])), f(0));
}

#[test]
fn sumcheck_polynomials() {
    let half = f(2).inverse().unwrap();
    // 5 + 3 x + 2 x^2
    let q = SumcheckPolynomial::new([f(5), f(10), f(19)]);
    assert_eq!(q.sum_over_hypercube(), f(15));
    for x in [0, 1, 2, 3, 10] {
        assert_eq!(q.evaluate_at_point(f(x), half), f(5 + 3 * x + 2 * x * x));
    }
}

#[test]
fn folding_values_is_evaluating_coefficients() {
    // A fourth root of unity, found as a power of a generator of the field.
    let quarter: [u64; 4] = [0x50f87d64fc000000, 0x4a0cfa121e6e5c24, 0x6e14116da0605617, 0x0c19139cb84c680a];
    let mut root = F::one();
    let five = f(5);
    for limb in quarter.iter().rev() {
        for bit in (0..64).rev() {
            root = root.times(root);
            if limb >> bit & 1 == 1 {
                root = root.times(five);
            }
        }
    }
    assert_eq!(root.pow(2), f(0).minus(f(1)));
    assert_eq!(root.pow(4), f(1));
    let offset = f(9);
    let half = f(2).inverse().unwrap();
    let c = CoefficientList::new(fs(&[3, 1, 4, 1]));
    let points: Vec<F> = (0..4).map(|i| offset.times(root.pow(i))).collect();
    let values = c.evaluate_at_univariate(&points);
    let randomness = fs(&[11, 13]);
    let folded = compute_fold(
        &values,
        &randomness,
        offset.inverse().unwrap(),
        root.inverse().unwrap(),
        half,
        2,
    );
    assert_eq!(folded, c.evaluate(&MultilinearPoint(randomness.clone())));
    assert_eq!(folded, f(3 + 13 + 4 * 11 + 11 * 13));
    // A longer polynomial folds to the value of the folded coefficients at the common power.
    let c = CoefficientList::new(fs(&[3, 1, 4, 1, 5, 9, 2, 6]));
    let values = c.evaluate_at_univariate(&points);
    let folded = compute_fold(
        &values,
        &randomness,
        offset.inverse().unwrap(),
        root.inverse().unwrap(),
        half,
        2,
    );
    let low = 3 + 13 + 4 * 11 + 11 * 13;
    let high = 5 + 9 * 13 + 2 * 11 + 6 * 11 * 13;
    assert_eq!(folded, f(low + high * 9 * 9 * 9 * 9));
    assert_eq!(compute_fold(&fs(&[8]), &vec![], f(1), f(1), half, 0), f(8));
}
