use recipies::rat::Rat;
use recipies::search::{BisectHunt1D, Search};
use recipies::errors::InterpError;

fn r(n: i64, d: i64) -> Rat {
    Rat::new(n, d).unwrap()
}

fn ints(vals: &[i64]) -> Vec<Rat> {
    vals.iter().map(|&v| Rat::from_int(v)).collect()
}

#[test]
fn locate_brackets_ascending_queries() {
    let table = ints(&[0, 1, 2, 3, 4, 5, 6, 7, 8, 9, 10]);
    let mut s = BisectHunt1D::new(&table, 2).unwrap();
    let n = table.len();
    for q in [r(1, 2), r(5, 2), r(17, 2), r(3, 1)] {
        let j = s.locate(&table, q);
        assert!(j <= n - 3);
        // the window of three points encloses every in-range query
        assert!(table[j].le(q) && q.le(table[j + 2]));
    }
}

#[test]
fn locate_clamps_out_of_range_queries() {
    let table = ints(&[0, 1, 2, 3, 4, 5]);
    let mut s = BisectHunt1D::new(&table, 2).unwrap();
    assert_eq!(s.locate(&table, r(-7, 1)), 0);
    assert_eq!(s.locate(&table, r(99, 1)), table.len() - 3);
}

#[test]
fn hunting_and_fresh_bisection_agree() {
    let table = ints(&[0, 2, 4, 6, 8, 10, 12, 14, 16, 18, 20, 22, 24, 26, 28, 30]);
    let queries = [
        r(1, 2),
        r(3, 2),
        r(5, 2),
        r(7, 2),
        r(9, 2),
        r(29, 1),
        r(1, 4),
        r(55, 2),
        r(11, 1),
        r(23, 2),
    ];
    // one locator answers the queries in order, staying correlated
    let mut hunting = BisectHunt1D::new(&table, 2).unwrap();
    let correlated: Vec<usize> = queries.iter().map(|&q| hunting.locate(&table, q)).collect();
    // a fresh locator per query always bisects the whole table
    let fresh: Vec<usize> = queries
        .iter()
        .map(|&q| BisectHunt1D::new(&table, 2).unwrap().locate(&table, q))
        .collect();
    assert_eq!(correlated, fresh);
}

#[test]
fn descending_tables_are_searched_too() {
    let table = ints(&[10, 8, 6, 4, 2, 0]);
    let mut s = BisectHunt1D::new(&table, 2).unwrap();
    let q = r(5, 1);
    let j = s.locate(&table, q);
    assert!(j <= table.len() - 3);
    assert!(q.le(table[j]) && table[j + 2].le(q));
}

#[test]
fn wider_windows_stay_inside_the_table() {
    let table = ints(&[0, 1, 2, 3, 4, 5, 6, 7]);
    let mut s = BisectHunt1D::new(&table, 4).unwrap();
    for q in [r(-1, 1), r(7, 2), r(13, 2), r(100, 1)] {
        let j = s.locate(&table, q);
        assert!(j <= table.len() - 5);
    }
}

#[test]
fn invalid_tables_are_rejected() {
    // too short for the window
    assert_eq!(
        BisectHunt1D::new(&ints(&[0]), 2).err().unwrap(),
        InterpError::InvalidTable
    );
    assert_eq!(
        BisectHunt1D::new(&ints(&[0, 1, 2]), 4).err().unwrap(),
        InterpError::InvalidTable
    );
    // window below two
    assert_eq!(
        BisectHunt1D::new(&ints(&[0, 1, 2, 3]), 1).err().unwrap(),
        InterpError::InvalidTable
    );
    // not strictly monotone
    assert_eq!(
        BisectHunt1D::new(&ints(&[0, 1, 1, 2]), 2).err().unwrap(),
        InterpError::InvalidTable
    );
    assert_eq!(
        BisectHunt1D::new(&ints(&[0, 2, 1, 3]), 2).err().unwrap(),
        InterpError::InvalidTable
    );
}

#[test]
fn a_table_of_exactly_the_window_size_has_one_window() {
    let table = ints(&[0, 1]);
    let mut s = BisectHunt1D::new(&table, 2).unwrap();
    assert_eq!(s.locate(&table, r(1, 2)), 0);
    assert_eq!(s.locate(&table, r(-5, 1)), 0);
    assert_eq!(s.locate(&table, r(5, 1)), 0);
}
