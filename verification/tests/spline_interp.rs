use recipies::errors::InterpError;
use recipies::interpolator::Interpolate1D;
use recipies::rat::Rat;
use recipies::spline::Spline1D;

fn r(n: i64, d: i64) -> Rat {
    Rat::new(n, d).unwrap()
}

fn ints(vals: &[i64]) -> Vec<Rat> {
    vals.iter().map(|&v| Rat::from_int(v)).collect()
}

#[test]
fn natural_spline_matches_the_analytic_solution() {
    // three points (0,0), (1,1), (2,0): the single interior equation
    // (2/3) z1 = -2 gives z1 = -3, so s(1/2) = 1/2 + 3/16 = 11/16
    let mut sp = Spline1D::new(ints(&[0, 1, 2]), ints(&[0, 1, 0]), None, None).unwrap();
    assert_eq!(sp.interpolate(r(1, 2)).unwrap(), r(11, 16));
    // curvature table as solved by hand
    assert_eq!(sp.y2, vec![r(0, 1), r(-3, 1), r(0, 1)]);
}

#[test]
fn natural_spline_reproduces_knots() {
    let mut sp = Spline1D::new(ints(&[0, 1, 2, 3]), ints(&[1, 2, 0, 2]), None, None).unwrap();
    assert_eq!(sp.interpolate(r(0, 1)).unwrap(), r(1, 1));
    assert_eq!(sp.interpolate(r(1, 1)).unwrap(), r(2, 1));
    assert_eq!(sp.interpolate(r(2, 1)).unwrap(), r(0, 1));
}

#[test]
fn clamped_spline_is_exact_on_cubics() {
    // y = x^3 with true end slopes 0 and 27: the spline is x^3 itself
    let mut sp = Spline1D::new(
        ints(&[0, 1, 2, 3]),
        ints(&[0, 1, 8, 27]),
        Some(Rat::zero()),
        Some(Rat::from_int(27)),
    )
    .unwrap();
    assert_eq!(sp.interpolate(r(3, 2)).unwrap(), r(27, 8));
    assert_eq!(sp.interpolate(r(1, 2)).unwrap(), r(1, 8));
    assert_eq!(sp.interpolate(r(5, 2)).unwrap(), r(125, 8));
    // the curvature of x^3 is 6x at every knot
    assert_eq!(sp.y2, vec![r(0, 1), r(6, 1), r(12, 1), r(18, 1)]);
}

#[test]
fn rejects_bad_spline_tables() {
    assert_eq!(
        Spline1D::new(ints(&[0, 1, 1]), ints(&[0, 1, 2]), None, None).err().unwrap(),
        InterpError::InvalidTable
    );
    assert_eq!(
        Spline1D::new(ints(&[0]), ints(&[0]), None, None).err().unwrap(),
        InterpError::InvalidTable
    );
}

#[test]
fn two_point_natural_spline_is_the_chord() {
    // with no interior points both curvatures are zero: the spline is the
    // straight chord
    let mut sp = Spline1D::new(ints(&[0, 2]), ints(&[0, 4]), None, None).unwrap();
    assert_eq!(sp.y2, vec![r(0, 1), r(0, 1)]);
    assert_eq!(sp.interpolate(r(1, 1)).unwrap(), r(2, 1));
    assert_eq!(sp.interpolate(r(1, 2)).unwrap(), r(1, 1));
}
