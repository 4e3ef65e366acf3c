use recipies::errors::InterpError;
use recipies::interpolator::Interpolate1D;
use recipies::linear::Linear1D;
use recipies::rat::Rat;

fn r(n: i64, d: i64) -> Rat {
    Rat::new(n, d).unwrap()
}

fn ints(vals: &[i64]) -> Vec<Rat> {
    vals.iter().map(|&v| Rat::from_int(v)).collect()
}

#[test]
fn interpolates_between_samples() {
    // y = 2x + 1
    let mut li = Linear1D::new(ints(&[0, 1, 2, 3]), ints(&[1, 3, 5, 7])).unwrap();
    assert_eq!(li.interpolate(r(1, 2)).unwrap(), r(2, 1));
    assert_eq!(li.interpolate(r(5, 2)).unwrap(), r(6, 1));
}

#[test]
fn reproduces_knots_except_the_clamped_last() {
    // y = x^2 sampled at 0..=3; linear interpolation is exact at knots
    let mut li = Linear1D::new(ints(&[0, 1, 2, 3]), ints(&[0, 1, 4, 9])).unwrap();
    assert_eq!(li.interpolate(r(0, 1)).unwrap(), r(0, 1));
    assert_eq!(li.interpolate(r(1, 1)).unwrap(), r(1, 1));
    assert_eq!(li.interpolate(r(2, 1)).unwrap(), r(4, 1));
    // the last knot falls outside its clamped pair (1, 2): the segment
    // through (1,1) and (2,4) extrapolated to 3 gives 7, not 9
    assert_eq!(li.interpolate(r(3, 1)).unwrap(), r(7, 1));
}

#[test]
fn extrapolates_past_the_table_edges() {
    let mut li = Linear1D::new(ints(&[0, 1, 2, 3]), ints(&[0, 1, 4, 9])).unwrap();
    // below the table: the first segment's line continued
    assert_eq!(li.interpolate(r(-1, 1)).unwrap(), r(-1, 1));
}

#[test]
fn rejects_bad_linear_tables() {
    assert_eq!(
        Linear1D::new(ints(&[0, 1, 2]), ints(&[0, 1])).err().unwrap(),
        InterpError::InvalidTable
    );
    assert_eq!(
        Linear1D::new(ints(&[0, 1, 1]), ints(&[0, 1, 2])).err().unwrap(),
        InterpError::InvalidTable
    );
    assert_eq!(
        Linear1D::new(ints(&[0]), ints(&[0])).err().unwrap(),
        InterpError::InvalidTable
    );
}

#[test]
fn two_point_tables_interpolate() {
    // y = 2x + 3 over the minimal table
    let mut li = Linear1D::new(ints(&[0, 1]), ints(&[3, 5])).unwrap();
    assert_eq!(li.interpolate(r(1, 2)).unwrap(), r(4, 1));
    // with a single pair, both knots are endpoints of the evaluation pair
    assert_eq!(li.interpolate(r(0, 1)).unwrap(), r(3, 1));
    assert_eq!(li.interpolate(r(1, 1)).unwrap(), r(5, 1));
    // and out-of-range queries extrapolate its line
    assert_eq!(li.interpolate(r(2, 1)).unwrap(), r(7, 1));
}

#[test]
fn works_on_descending_tables() {
    // y = 2x + 1 over a descending abscissa table
    let mut li = Linear1D::new(ints(&[3, 2, 1, 0]), ints(&[7, 5, 3, 1])).unwrap();
    assert_eq!(li.interpolate(r(1, 2)).unwrap(), r(2, 1));
}
