use recipies::errors::InterpError;
use recipies::interpolator::Interpolate1D;
use recipies::polynomial::{neville, Poly1D};
use recipies::rat::Rat;

fn r(n: i64, d: i64) -> Rat {
    Rat::new(n, d).unwrap()
}

fn ints(vals: &[i64]) -> Vec<Rat> {
    vals.iter().map(|&v| Rat::from_int(v)).collect()
}

#[test]
fn cubic_table_interpolates_exactly() {
    // y = x^3 sampled at 0..=3; a degree-three fit is exact: 1.5^3 = 3.375
    let mut p = Poly1D::new(ints(&[0, 1, 2, 3]), ints(&[0, 1, 8, 27]), 3).unwrap();
    assert_eq!(p.interpolate(r(3, 2)).unwrap(), r(27, 8));
    assert_eq!(p.interpolate(r(1, 2)).unwrap(), r(1, 8));
}

#[test]
fn full_degree_reproduces_every_knot() {
    let mut p = Poly1D::new(ints(&[0, 1, 2, 3]), ints(&[0, 1, 8, 27]), 3).unwrap();
    for k in 0..4i64 {
        assert_eq!(p.interpolate(Rat::from_int(k)).unwrap(), Rat::from_int(k * k * k));
    }
}

#[test]
fn neville_evaluates_the_unique_polynomial() {
    // the quadratic through (1,1), (2,4), (3,9) is x^2
    let xa = ints(&[1, 2, 3]);
    let ya = ints(&[1, 4, 9]);
    assert_eq!(neville(&xa, &ya, r(5, 1)).unwrap(), r(25, 1));
    assert_eq!(neville(&xa, &ya, r(5, 2)).unwrap(), r(25, 4));
    // a single point is a constant
    assert_eq!(neville(&ints(&[4]), &ints(&[11]), r(0, 1)).unwrap(), r(11, 1));
}

#[test]
fn neville_rejects_coincident_abscissas() {
    let xa = ints(&[1, 1]);
    let ya = ints(&[1, 2]);
    assert_eq!(neville(&xa, &ya, r(0, 1)).err().unwrap(), InterpError::DegenerateInterval);
}

#[test]
fn sliding_window_follows_the_query() {
    // y = x^2 over 0..=5 with quadratic windows: exact everywhere in range
    let x = ints(&[0, 1, 2, 3, 4, 5]);
    let y = ints(&[0, 1, 4, 9, 16, 25]);
    let mut p = Poly1D::new(x, y, 2).unwrap();
    assert_eq!(p.interpolate(r(7, 2)).unwrap(), r(49, 4));
    assert_eq!(p.interpolate(r(3, 4)).unwrap(), r(9, 16));
}

#[test]
fn rejects_windows_wider_than_the_table() {
    assert_eq!(
        Poly1D::new(ints(&[0, 1, 2]), ints(&[0, 1, 2]), 3).err().unwrap(),
        InterpError::InvalidTable
    );
}
