use recipies::errors::InterpError;
use recipies::gaussj::DenseLinearSolver;
use recipies::rat::Rat;

fn r(n: i64, d: i64) -> Rat {
    Rat::new(n, d).unwrap()
}

fn mat(rows: &[&[i64]]) -> Vec<Vec<Rat>> {
    rows.iter()
        .map(|row| row.iter().map(|&v| Rat::from_int(v)).collect())
        .collect()
}

#[test]
fn diagonal_system_is_solved_exactly() {
    // A = [[2,0],[0,2]], B = [[1],[1]] gives X = [[1/2],[1/2]]
    let a = mat(&[&[2, 0], &[0, 2]]);
    let b = mat(&[&[1], &[1]]);
    let (ainv, x) = DenseLinearSolver::solve(&a, &b).unwrap();
    assert_eq!(x, vec![vec![r(1, 2)], vec![r(1, 2)]]);
    assert_eq!(ainv, vec![vec![r(1, 2), r(0, 1)], vec![r(0, 1), r(1, 2)]]);
}

#[test]
fn identity_right_hand_side_yields_the_inverse() {
    let a = mat(&[&[1, 2], &[3, 5]]);
    let b = mat(&[&[1, 0], &[0, 1]]);
    let (_, x) = DenseLinearSolver::solve(&a, &b).unwrap();
    // A^-1 = [[-5, 2], [3, -1]]
    assert_eq!(
        x,
        vec![
            vec![Rat::from_int(-5), Rat::from_int(2)],
            vec![Rat::from_int(3), Rat::from_int(-1)]
        ]
    );
}

#[test]
fn a_known_solution_is_recovered() {
    // A x = b with x = (1, 1): b = (3, 8)
    let a = mat(&[&[1, 2], &[3, 5]]);
    let b = mat(&[&[3], &[8]]);
    let (_, x) = DenseLinearSolver::solve(&a, &b).unwrap();
    assert_eq!(x, vec![vec![r(1, 1)], vec![r(1, 1)]]);
}

#[test]
fn singular_matrices_are_reported() {
    let a = mat(&[&[1, 2], &[1, 2]]);
    let b = mat(&[&[1], &[1]]);
    assert_eq!(
        DenseLinearSolver::solve(&a, &b).unwrap_err(),
        InterpError::SingularMatrix
    );
    let z = mat(&[&[0, 0], &[0, 0]]);
    assert_eq!(
        DenseLinearSolver::solve(&z, &b).unwrap_err(),
        InterpError::SingularMatrix
    );
    // a singular system is rejected even when it happens to be consistent
    let c = mat(&[&[1, 1], &[1, 1]]);
    let d = mat(&[&[2], &[2]]);
    assert_eq!(
        DenseLinearSolver::solve(&c, &d).unwrap_err(),
        InterpError::SingularMatrix
    );
}

#[test]
fn pivoting_selects_by_magnitude() {
    // the largest-magnitude entry is negative; raw-value pivoting would
    // pick a worse pivot, magnitude pivoting handles it directly
    let a = mat(&[&[0, -3], &[2, 0]]);
    let b = mat(&[&[1, 0], &[0, 1]]);
    let (_, x) = DenseLinearSolver::solve(&a, &b).unwrap();
    assert_eq!(x, vec![vec![r(0, 1), r(1, 2)], vec![r(-1, 3), r(0, 1)]]);
}

#[test]
fn three_by_three_inverse_multiplies_back() {
    let a = mat(&[&[2, 1, 0], &[1, 3, 1], &[0, 1, 2]]);
    let b = mat(&[&[1, 0, 0], &[0, 1, 0], &[0, 0, 1]]);
    let (_, x) = DenseLinearSolver::solve(&a, &b).unwrap();
    // check A * X = I by exact rational arithmetic
    for i in 0..3 {
        for j in 0..3 {
            let mut acc = Rat::zero();
            for k in 0..3 {
                acc = acc.plus(a[i][k].times(x[k][j]).unwrap()).unwrap();
            }
            let expect = if i == j { Rat::one() } else { Rat::zero() };
            assert!(acc.eq_val(expect));
        }
    }
}
