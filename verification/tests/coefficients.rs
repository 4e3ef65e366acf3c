use recipies::errors::InterpError;
use recipies::polynomial_coefficients::{polcoe, polcof};
use recipies::rat::Rat;

fn r(n: i64, d: i64) -> Rat {
    Rat::new(n, d).unwrap()
}

fn ints(vals: &[i64]) -> Vec<Rat> {
    vals.iter().map(|&v| Rat::from_int(v)).collect()
}

#[test]
fn cubic_coefficients_come_out_exactly() {
    // y = x^3: coefficients (0, 0, 0, 1)
    let x = ints(&[0, 1, 2, 3]);
    let y = ints(&[0, 1, 8, 27]);
    let expect = ints(&[0, 0, 0, 1]);
    assert_eq!(polcoe(&x, &y).unwrap(), expect);
    assert_eq!(polcof(&x, &y).unwrap(), expect);
}

#[test]
fn affine_coefficients_come_out_exactly() {
    // y = 2x + 1
    let x = ints(&[0, 1, 2]);
    let y = ints(&[1, 3, 5]);
    let expect = ints(&[1, 2, 0]);
    assert_eq!(polcoe(&x, &y).unwrap(), expect);
    assert_eq!(polcof(&x, &y).unwrap(), expect);
}

#[test]
fn the_two_methods_agree() {
    let x = vec![r(-1, 1), r(0, 1), r(1, 2), r(2, 1)];
    let y = vec![r(3, 1), r(1, 1), r(2, 1), r(5, 1)];
    let a = polcoe(&x, &y).unwrap();
    let b = polcof(&x, &y).unwrap();
    assert_eq!(a.len(), b.len());
    for k in 0..a.len() {
        assert!(a[k].eq_val(b[k]));
    }
}

#[test]
fn coefficients_evaluate_back_to_the_samples() {
    let x = vec![r(-2, 1), r(-1, 2), r(1, 1), r(3, 1)];
    let y = vec![r(1, 1), r(-1, 1), r(2, 1), r(0, 1)];
    let c = polcoe(&x, &y).unwrap();
    for i in 0..x.len() {
        // Horner evaluation of the power basis at x[i]
        let mut acc = Rat::zero();
        for k in (0..c.len()).rev() {
            acc = acc.times(x[i]).unwrap().plus(c[k]).unwrap();
        }
        assert!(acc.eq_val(y[i]));
    }
}

#[test]
fn coincident_abscissas_are_degenerate() {
    let x = ints(&[1, 1]);
    let y = ints(&[1, 2]);
    assert_eq!(polcoe(&x, &y).unwrap_err(), InterpError::DegenerateInterval);
    assert_eq!(polcof(&x, &y).unwrap_err(), InterpError::DegenerateInterval);
}

#[test]
fn single_point_is_a_constant() {
    let x = ints(&[5]);
    let y = ints(&[9]);
    assert_eq!(polcoe(&x, &y).unwrap(), ints(&[9]));
    assert_eq!(polcof(&x, &y).unwrap(), ints(&[9]));
}
