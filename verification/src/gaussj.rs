//! Dense linear solving by Gauss-Jordan elimination with full pivoting.
//!
//! One call reduces the coefficient matrix in place (over working copies),
//! transforming the right-hand sides into the solution and the matrix into
//! its inverse. Pivots are chosen by largest magnitude over the rows and
//! columns not yet used — magnitude, not raw value, so that negative pivots
//! qualify. The result is certified before it is returned: the contract
//! states that the returned solution and inverse multiply back exactly.

use vstd::prelude::*;

use crate::errors::InterpError;
use crate::polynomial_coefficients::q_abs;
use crate::rat::{
    clone_rats, prod_tracked, q_prod, q_sum, rat_eq, rat_lt, rat_wf, srat_diff, srat_prod,
    srat_quot, srat_sum, sum_tracked, Rat,
};
use crate::search::wf_table;

verus! {

/// `mm` is a well-formed `rows` by `cols` matrix of rationals.
pub open spec fn wf_mat(mm: Seq<Vec<Rat>>, rows: int, cols: int) -> bool {
    &&& mm.len() == rows
    &&& forall|i: int| 0 <= i < rows ==> (#[trigger] mm[i]@).len() == cols && wf_table(mm[i]@)
}

/// Row `i` of a matrix, as model values.
pub open spec fn mrow(mm: Seq<Vec<Rat>>, i: int) -> Seq<(int, int)> {
    Seq::new(mm[i]@.len(), |k: int| mm[i]@[k]@)
}

/// Column `j` of a matrix, as model values.
pub open spec fn mcol(mm: Seq<Vec<Rat>>, j: int) -> Seq<(int, int)> {
    Seq::new(mm.len(), |k: int| mm[k]@[j]@)
}

/// The exact dot product of the first `k` entries, as an unreduced rational.
pub open spec fn q_dot(r: Seq<(int, int)>, c: Seq<(int, int)>, k: int) -> (int, int)
    decreases k,
{
    if k <= 0 {
        (0int, 1int)
    } else {
        q_sum(q_dot(r, c, k - 1), q_prod(r[k - 1], c[k - 1]))
    }
}

/// The identity matrix's entry.
pub open spec fn kron(i: int, j: int) -> (int, int) {
    if i == j {
        (1int, 1int)
    } else {
        (0int, 1int)
    }
}


// ---------------------------------------------------------------------------
// The exact model of the solver: the same elimination, pivot search,
// unscramble and certification over unbounded pairs, with every checked
// operation's failure point mirrored. `solve` returns exactly what this
// model computes.
// ---------------------------------------------------------------------------

/// The values a matrix of rationals denotes.
pub open spec fn mview(m: Seq<Vec<Rat>>) -> Seq<Seq<(int, int)>> {
    Seq::new(m.len(), |i: int| crate::rat::rvals(m[i]@))
}

/// Column `j` of a matrix of values.
pub open spec fn mcolv(mm: Seq<Seq<(int, int)>>, j: int) -> Seq<(int, int)> {
    Seq::new(mm.len(), |k: int| mm[k][j])
}

/// The working state of the elimination: coefficient and right-hand
/// matrices, the used-pivot flags, and the recorded row/column choices.
pub struct GjState {
    /// The reduced coefficient matrix (the inverse being built).
    pub aa: Seq<Seq<(int, int)>>,
    /// The right-hand sides being transformed into the solution.
    pub bb: Seq<Seq<(int, int)>>,
    /// Which index has already served as a pivot.
    pub used: Seq<bool>,
    /// The pivot row chosen in each pass.
    pub ixr: Seq<usize>,
    /// The pivot column chosen in each pass.
    pub ixc: Seq<usize>,
}

/// A row multiplied through by `f`, entry by entry.
pub open spec fn gj_scale(
    row: Seq<(int, int)>,
    f: (int, int),
    k: int,
    out: Seq<(int, int)>,
) -> Result<Seq<(int, int)>, InterpError>
    decreases row.len() - k,
{
    if k < 0 || k >= row.len() {
        Ok(out)
    } else {
        match srat_prod(row[k], f) {
            None => Err(InterpError::Overflow),
            Some(v) => gj_scale(row, f, k + 1, out.push(v)),
        }
    }
}

/// One elimination step: entry `k` becomes `row[k] - base[k] * dum`, with
/// entry `zi` of `row` read as zero first when `zero_at` is set.
pub open spec fn gj_elim(
    row: Seq<(int, int)>,
    base: Seq<(int, int)>,
    dum: (int, int),
    zero_at: bool,
    zi: int,
    k: int,
    out: Seq<(int, int)>,
) -> Result<Seq<(int, int)>, InterpError>
    decreases row.len() - k,
{
    if k < 0 || k >= row.len() {
        Ok(out)
    } else {
        let cur = if zero_at && k == zi {
            (0int, 1int)
        } else {
            row[k]
        };
        match srat_prod(base[k], dum) {
            None => Err(InterpError::Overflow),
            Some(t) => match srat_diff(cur, t) {
                None => Err(InterpError::Overflow),
                Some(v) => gj_elim(row, base, dum, zero_at, zi, k + 1, out.push(v)),
            },
        }
    }
}

/// The running best of the pivot search: whether one was found, its row,
/// its column, and its magnitude.
pub open spec fn gj_pivot(
    aa: Seq<Seq<(int, int)>>,
    used: Seq<bool>,
    j: int,
    k: int,
    st: (bool, int, int, (int, int)),
) -> (bool, int, int, (int, int))
    decreases aa.len() - j, aa.len() - k,
{
    if j < 0 || j >= aa.len() {
        st
    } else if k < 0 || k >= aa.len() {
        gj_pivot(aa, used, j + 1, 0, st)
    } else {
        let st2 = if !used[j] && !used[k] && rat_lt(st.3, q_abs(aa[j][k])) {
            (true, j, k, q_abs(aa[j][k]))
        } else {
            st
        };
        gj_pivot(aa, used, j, k + 1, st2)
    }
}

/// Two rows of a matrix of values exchanged.
pub open spec fn gj_swap(mm: Seq<Seq<(int, int)>>, r1: int, r2: int) -> Seq<Seq<(int, int)>> {
    mm.update(r1, mm[r2]).update(r2, mm[r1])
}

/// The elimination of the pivot column from every row but the pivot's.
pub open spec fn gj_elim_rows(st: GjState, icol: int, ll: int) -> Result<GjState, InterpError>
    decreases st.aa.len() - ll,
{
    if ll < 0 || ll >= st.aa.len() {
        Ok(st)
    } else if ll == icol {
        gj_elim_rows(st, icol, ll + 1)
    } else {
        let dum = st.aa[ll][icol];
        match gj_elim(st.aa[ll], st.aa[icol], dum, true, icol, 0, Seq::empty()) {
            Err(e) => Err(e),
            Ok(na) => match gj_elim(st.bb[ll], st.bb[icol], dum, false, 0, 0, Seq::empty()) {
                Err(e) => Err(e),
                Ok(nb) => gj_elim_rows(
                    GjState {
                        aa: st.aa.update(ll, na),
                        bb: st.bb.update(ll, nb),
                        used: st.used,
                        ixr: st.ixr,
                        ixc: st.ixc,
                    },
                    icol,
                    ll + 1,
                ),
            },
        }
    }
}

/// The remaining elimination passes, from pass `i` of `n`.
pub open spec fn gj_passes(st: GjState, i: int, n: int) -> Result<GjState, InterpError>
    decreases n - i, 1int,
{
    if i < 0 || i >= n {
        Ok(st)
    } else {
        gj_pass_body(st, i, n, gj_pivot(st.aa, st.used, 0, 0, (false, 0int, 0int, (0int, 1int))))
    }
}

/// One pass, once its pivot search has finished: an exhausted search is a
/// singular matrix; otherwise mark, swap, record, scale the pivot row (its
/// diagonal read as one first), eliminate, and continue.
pub open spec fn gj_pass_body(
    st: GjState,
    i: int,
    n: int,
    pv: (bool, int, int, (int, int)),
) -> Result<GjState, InterpError>
    decreases n - i, 0int,
{
    if i < 0 || i >= n || !pv.0 {
        Err(InterpError::SingularMatrix)
    } else {
        let irow = pv.1;
        let icol = pv.2;
        let used2 = st.used.update(icol, true);
        let aa2 = if irow != icol {
            gj_swap(st.aa, irow, icol)
        } else {
            st.aa
        };
        let bb2 = if irow != icol {
            gj_swap(st.bb, irow, icol)
        } else {
            st.bb
        };
        let ixr2 = st.ixr.update(i, irow as usize);
        let ixc2 = st.ixc.update(i, icol as usize);
        let piv = aa2[icol][icol];
        if piv.0 == 0 {
            Err(InterpError::SingularMatrix)
        } else {
            match srat_quot((1int, 1int), piv) {
                None => Err(InterpError::Overflow),
                Some(pi) => match gj_scale(aa2[icol].update(icol, (1int, 1int)), pi, 0, Seq::empty()) {
                    Err(e) => Err(e),
                    Ok(pr) => match gj_scale(bb2[icol], pi, 0, Seq::empty()) {
                        Err(e) => Err(e),
                        Ok(qr) => match gj_elim_rows(
                            GjState {
                                aa: aa2.update(icol, pr),
                                bb: bb2.update(icol, qr),
                                used: used2,
                                ixr: ixr2,
                                ixc: ixc2,
                            },
                            icol,
                            0,
                        ) {
                            Err(e) => Err(e),
                            Ok(st3) => gj_passes(st3, i + 1, n),
                        },
                    },
                },
            }
        }
    }
}

/// The column permutation of the inverse undone, replaying the recorded
/// swaps from the last pass back to the first.
pub open spec fn gj_unscramble(
    aa: Seq<Seq<(int, int)>>,
    ixr: Seq<usize>,
    ixc: Seq<usize>,
    l: int,
) -> Seq<Seq<(int, int)>>
    decreases l,
{
    if l <= 0 {
        aa
    } else {
        let li = l - 1;
        let c1 = ixr[li] as int;
        let c2 = ixc[li] as int;
        let aa2 = if c1 != c2 {
            Seq::new(aa.len(), |r: int| aa[r].update(c1, aa[r][c2]).update(c2, aa[r][c1]))
        } else {
            aa
        };
        gj_unscramble(aa2, ixr, ixc, li)
    }
}

/// The exact running dot product of the certification, with its failure
/// points.
pub open spec fn gj_dot(
    row: Seq<(int, int)>,
    col: Seq<(int, int)>,
    acc: (int, int),
    k: int,
    n: int,
) -> Result<(int, int), InterpError>
    decreases n - k,
{
    if k < 0 || k >= n {
        Ok(acc)
    } else {
        match srat_prod(row[k], col[k]) {
            None => Err(InterpError::Overflow),
            Some(p) => match srat_sum(acc, p) {
                None => Err(InterpError::Overflow),
                Some(a2) => gj_dot(row, col, a2, k + 1, n),
            },
        }
    }
}

/// Whether one certification dot product comes out equal to its target.
pub open spec fn gj_dot_check(
    row: Seq<(int, int)>,
    col: Seq<(int, int)>,
    n: int,
    target: (int, int),
) -> Result<bool, InterpError> {
    match gj_dot(row, col, (0int, 1int), 0, n) {
        Err(e) => Err(e),
        Ok(acc) => Ok(rat_eq(acc, target)),
    }
}

/// The certification of row `i` of the solution against the right-hand
/// sides, from column `jj` on.
pub open spec fn gj_cert_brow(
    a0: Seq<Seq<(int, int)>>,
    xx: Seq<Seq<(int, int)>>,
    b0: Seq<Seq<(int, int)>>,
    i: int,
    jj: int,
    m: int,
) -> Result<bool, InterpError>
    decreases m - jj,
{
    if jj < 0 || jj >= m {
        Ok(true)
    } else {
        match gj_dot_check(a0[i], mcolv(xx, jj), a0.len() as int, b0[i][jj]) {
            Err(e) => Err(e),
            Ok(ok) => if ok {
                gj_cert_brow(a0, xx, b0, i, jj + 1, m)
            } else {
                Ok(false)
            },
        }
    }
}

/// The certification of row `i` of the inverse against the identity, from
/// column `jk` on.
pub open spec fn gj_cert_irow(
    a0: Seq<Seq<(int, int)>>,
    inv: Seq<Seq<(int, int)>>,
    i: int,
    jk: int,
) -> Result<bool, InterpError>
    decreases a0.len() - jk,
{
    if jk < 0 || jk >= a0.len() {
        Ok(true)
    } else {
        match gj_dot_check(a0[i], mcolv(inv, jk), a0.len() as int, kron(i, jk)) {
            Err(e) => Err(e),
            Ok(ok) => if ok {
                gj_cert_irow(a0, inv, i, jk + 1)
            } else {
                Ok(false)
            },
        }
    }
}

/// The whole certification, row by row: first the solution columns, under
/// them the inverse columns.
pub open spec fn gj_cert(
    a0: Seq<Seq<(int, int)>>,
    inv: Seq<Seq<(int, int)>>,
    xx: Seq<Seq<(int, int)>>,
    b0: Seq<Seq<(int, int)>>,
    i: int,
    m: int,
) -> Result<bool, InterpError>
    decreases a0.len() - i,
{
    if i < 0 || i >= a0.len() {
        Ok(true)
    } else {
        match gj_cert_brow(a0, xx, b0, i, 0, m) {
            Err(e) => Err(e),
            Ok(ok) => if !ok {
                Ok(false)
            } else {
                match gj_cert_irow(a0, inv, i, 0) {
                    Err(e) => Err(e),
                    Ok(ok2) => if !ok2 {
                        Ok(false)
                    } else {
                        gj_cert(a0, inv, xx, b0, i + 1, m)
                    },
                }
            },
        }
    }
}

/// The continuation of a pass after its eliminations: the remaining passes.
pub open spec fn gj_after_elim(res: Result<GjState, InterpError>, i: int, n: int) -> Result<
    GjState,
    InterpError,
> {
    match res {
        Err(e) => Err(e),
        Ok(st3) => gj_passes(st3, i + 1, n),
    }
}

/// The continuation of the certification: a clean certificate returns the
/// pair, a failed one a singular report.
pub open spec fn gj_cert_tail(
    c: Result<bool, InterpError>,
    inv: Seq<Seq<(int, int)>>,
    xx: Seq<Seq<(int, int)>>,
) -> Result<(Seq<Seq<(int, int)>>, Seq<Seq<(int, int)>>), InterpError> {
    match c {
        Err(e) => Err(e),
        Ok(ok) => if ok {
            Ok((inv, xx))
        } else {
            Err(InterpError::SingularMatrix)
        },
    }
}

/// The current model state of the working matrices and bookkeeping.
pub open spec fn gj_cur(
    aa: Seq<Vec<Rat>>,
    bb: Seq<Vec<Rat>>,
    used: Seq<bool>,
    ixr: Seq<usize>,
    ixc: Seq<usize>,
) -> GjState {
    GjState { aa: mview(aa), bb: mview(bb), used: used, ixr: ixr, ixc: ixc }
}

/// What remains of the model once the elimination passes are done: undo the
/// column permutation and certify.
pub open spec fn gj_model_tail(
    res: Result<GjState, InterpError>,
    a0: Seq<Seq<(int, int)>>,
    b0: Seq<Seq<(int, int)>>,
) -> Result<(Seq<Seq<(int, int)>>, Seq<Seq<(int, int)>>), InterpError> {
    match res {
        Err(e) => Err(e),
        Ok(stf) => {
            let inv = gj_unscramble(stf.aa, stf.ixr, stf.ixc, a0.len() as int);
            match gj_cert(a0, inv, stf.bb, b0, 0, b0[0].len() as int) {
                Err(e) => Err(e),
                Ok(ok) => if ok {
                    Ok((inv, stf.bb))
                } else {
                    Err(InterpError::SingularMatrix)
                },
            }
        },
    }
}

/// The exact outcome of the solver on the given matrices.
pub open spec fn gj_model(
    a0: Seq<Seq<(int, int)>>,
    b0: Seq<Seq<(int, int)>>,
) -> Result<(Seq<Seq<(int, int)>>, Seq<Seq<(int, int)>>), InterpError> {
    let n = a0.len();
    let st0 = GjState {
        aa: a0,
        bb: b0,
        used: Seq::new(n, |t: int| false),
        ixr: Seq::new(n, |t: int| 0usize),
        ixc: Seq::new(n, |t: int| 0usize),
    };
    gj_model_tail(gj_passes(st0, 0, n as int), a0, b0)
}

/// The view of a row-or-error result.
pub open spec fn row_res_view(r: Result<Vec<Rat>, InterpError>) -> Result<
    Seq<(int, int)>,
    InterpError,
> {
    match r {
        Ok(v) => Ok(crate::rat::rvals(v@)),
        Err(e) => Err(e),
    }
}

/// The view of the solver's result.
pub open spec fn gj_res_view(r: Result<(Vec<Vec<Rat>>, Vec<Vec<Rat>>), InterpError>) -> Result<
    (Seq<Seq<(int, int)>>, Seq<Seq<(int, int)>>),
    InterpError,
> {
    match r {
        Ok(p) => Ok((mview(p.0@), mview(p.1@))),
        Err(e) => Err(e),
    }
}

/// Checks that row `i` of `a0` times column `jj` of `ms` equals `target`
/// exactly; reports `Overflow` when an exact intermediate of the check
/// leaves the representable range.
#[verifier::loop_isolation(false)]
fn dot_matches(a0: &Vec<Vec<Rat>>, i: usize, ms: &Vec<Vec<Rat>>, jj: usize, target: Rat) -> (r:
    Result<bool, InterpError>)
    requires
        wf_mat(a0@, a0@.len() as int, a0@.len() as int),
        wf_mat(ms@, a0@.len() as int, ms@[0]@.len() as int),
        i < a0@.len(),
        jj < ms@[0]@.len(),
        1 <= a0@.len(),
        rat_wf(target@),
    ensures
        r == gj_dot_check(mrow(a0@, i as int), mcol(ms@, jj as int), a0@.len() as int, target@),
        r == Ok::<bool, InterpError>(true) ==> rat_eq(
            q_dot(mrow(a0@, i as int), mcol(ms@, jj as int), a0@.len() as int),
            target@,
        ),
        r matches Err(e) ==> e == InterpError::Overflow,
{
    let n: usize = a0.len();
    let ghost rowv = mrow(a0@, i as int);
    let ghost colv = mcol(ms@, jj as int);
    let ghost dtarget = gj_dot(rowv, colv, (0int, 1int), 0, n as int);
    let mut acc: Rat = Rat::zero();
    let mut k: usize = 0;
    while k < n
        invariant
            0 <= k <= n,
            rat_wf(acc@),
            rat_eq(acc@, q_dot(rowv, colv, k as int)),
            dtarget == gj_dot(rowv, colv, acc@, k as int, n as int),
        decreases n - k,
    {
        let p: Rat = match prod_tracked(
            a0[i][k],
            ms[k][jj],
            Ghost(rowv[k as int]),
            Ghost(colv[k as int]),
        ) {
            Some(v) => v,
            None => {
                return Err(InterpError::Overflow);
            },
        };
        let acc2: Rat = match sum_tracked(
            acc,
            p,
            Ghost(q_dot(rowv, colv, k as int)),
            Ghost(q_prod(rowv[k as int], colv[k as int])),
        ) {
            Some(v) => v,
            None => {
                return Err(InterpError::Overflow);
            },
        };
        acc = acc2;
        k = k + 1;
    }
    let ok: bool = acc.eq_val(target);
    proof {
        if ok {
            crate::rat::lemma_rat_eq_trans(q_dot(rowv, colv, n as int), acc@, target@);
        }
    }
    Ok(ok)
}

/// A dense linear solver; stateless, it takes its matrices per call.
pub struct DenseLinearSolver {}

impl DenseLinearSolver {
    /// Solves `A · X = B` by Gauss-Jordan elimination with full pivoting,
    /// returning the reduced matrix (the inverse of `A`) and the solution.
    ///
    /// The outcome equals `gj_model` exactly: success and failure alike are
    /// a function of the two matrices alone. On success the result is
    /// certified by exact multiplication — the contract says that `A` times
    /// the returned solution reproduces `B`, and `A` times the returned
    /// inverse is the identity, entry by entry as rationals. An exhausted
    /// pivot search (a singular system, consistent or not) or a result that
    /// fails the exact check is `SingularMatrix`; an unrepresentable exact
    /// intermediate, in the elimination or in the check, is `Overflow` —
    /// and those two are the only errors.
    #[verifier::loop_isolation(false)]
    #[verifier::rlimit(100)]
    pub fn solve(a: &Vec<Vec<Rat>>, b: &Vec<Vec<Rat>>) -> (r: Result<
        (Vec<Vec<Rat>>, Vec<Vec<Rat>>),
        InterpError,
    >)
        requires
            1 <= a@.len(),
            wf_mat(a@, a@.len() as int, a@.len() as int),
            wf_mat(b@, a@.len() as int, b@[0]@.len() as int),
        ensures
            gj_res_view(r) == gj_model(mview(a@), mview(b@)),
            r matches Ok(p) ==> wf_mat(p.0@, a@.len() as int, a@.len() as int) && wf_mat(
                p.1@,
                a@.len() as int,
                b@[0]@.len() as int,
            ),
            r matches Ok(p) ==> (forall|i: int, jj: int|
                0 <= i < a@.len() && 0 <= jj < b@[0]@.len() ==> rat_eq(
                    #[trigger] q_dot(mrow(a@, i), mcol(p.1@, jj), a@.len() as int),
                    b@[i]@[jj]@,
                )),
            r matches Ok(p) ==> (forall|i: int, jj: int|
                0 <= i < a@.len() && 0 <= jj < a@.len() ==> rat_eq(
                    #[trigger] q_dot(mrow(a@, i), mcol(p.0@, jj), a@.len() as int),
                    kron(i, jj),
                )),
            r matches Err(e) ==> e == InterpError::SingularMatrix || e == InterpError::Overflow,
    {
        let n: usize = a.len();
        let m: usize = b[0].len();
        let ghost a_v = mview(a@);
        let ghost b_v = mview(b@);
        let ghost target = gj_model(a_v, b_v);
        let mut aa: Vec<Vec<Rat>> = clone_mat(a);
        let mut bb: Vec<Vec<Rat>> = clone_mat(b);
        let mut ipiv: Vec<bool> = flags_vec(n);
        let mut indxr: Vec<usize> = index_vec(n);
        let mut indxc: Vec<usize> = index_vec(n);
        proof {
            assert(mview(aa@) =~= a_v);
            assert(mview(bb@) =~= b_v);
            assert(ipiv@ =~= Seq::new(n as nat, |t: int| false));
            assert(indxr@ =~= Seq::new(n as nat, |t: int| 0usize));
            assert(indxc@ =~= Seq::new(n as nat, |t: int| 0usize));
            assert(target == gj_model_tail(
                gj_passes(gj_cur(aa@, bb@, ipiv@, indxr@, indxc@), 0, n as int),
                a_v,
                b_v,
            ));
        }

        let mut i: usize = 0;
        while i < n
            invariant
                0 <= i <= n,
                wf_mat(aa@, n as int, n as int),
                wf_mat(bb@, n as int, m as int),
                ipiv@.len() == n,
                indxr@.len() == n,
                indxc@.len() == n,
                forall|t: int| 0 <= t < n ==> #[trigger] indxr@[t] < n,
                forall|t: int| 0 <= t < n ==> #[trigger] indxc@[t] < n,
                target == gj_model_tail(
                    gj_passes(gj_cur(aa@, bb@, ipiv@, indxr@, indxc@), i as int, n as int),
                    a_v,
                    b_v,
                ),
            decreases n - i,
        {
            let ghost st_in = gj_cur(aa@, bb@, ipiv@, indxr@, indxc@);
            // full pivot search over the rows and columns not yet used
            let mut found: bool = false;
            let mut irow: usize = 0;
            let mut icol: usize = 0;
            let mut big: Rat = Rat::zero();
            let mut j: usize = 0;
            while j < n
                invariant
                    0 <= j <= n,
                    rat_wf(big@),
                    found ==> irow < n && icol < n,
                    gj_pivot(st_in.aa, st_in.used, 0, 0, (false, 0int, 0int, (0int, 1int)))
                        == gj_pivot(
                        st_in.aa,
                        st_in.used,
                        j as int,
                        0,
                        (found, irow as int, icol as int, big@),
                    ),
                decreases n - j,
            {
                let mut k: usize = 0;
                while k < n
                    invariant
                        0 <= k <= n,
                        j < n,
                        rat_wf(big@),
                        found ==> irow < n && icol < n,
                        gj_pivot(st_in.aa, st_in.used, 0, 0, (false, 0int, 0int, (0int, 1int)))
                            == gj_pivot(
                            st_in.aa,
                            st_in.used,
                            j as int,
                            k as int,
                            (found, irow as int, icol as int, big@),
                        ),
                    decreases n - k,
                {
                    if !ipiv[j] && !ipiv[k] {
                        let cand: Rat = aa[j][k].abs_val();
                        if big.lt(cand) {
                            big = cand;
                            irow = j;
                            icol = k;
                            found = true;
                        }
                    }
                    k = k + 1;
                }
                j = j + 1;
            }
            let ghost pv = (found, irow as int, icol as int, big@);
            proof {
                assert(pv == gj_pivot(st_in.aa, st_in.used, 0, 0, (false, 0int, 0int, (0int, 1int))));
                assert(gj_passes(st_in, i as int, n as int) == gj_pass_body(
                    st_in,
                    i as int,
                    n as int,
                    pv,
                ));
            }
            if !found {
                // every remaining candidate is exactly zero
                return Err(InterpError::SingularMatrix);
            }
            ipiv.set(icol, true);
            let ghost aa2v = if irow != icol {
                gj_swap(st_in.aa, irow as int, icol as int)
            } else {
                st_in.aa
            };
            let ghost bb2v = if irow != icol {
                gj_swap(st_in.bb, irow as int, icol as int)
            } else {
                st_in.bb
            };
            if irow != icol {
                let ra: Vec<Rat> = clone_rats(&aa[irow]);
                let rb: Vec<Rat> = clone_rats(&aa[icol]);
                aa.set(irow, rb);
                aa.set(icol, ra);
                let sa: Vec<Rat> = clone_rats(&bb[irow]);
                let sb: Vec<Rat> = clone_rats(&bb[icol]);
                bb.set(irow, sb);
                bb.set(icol, sa);
            }
            proof {
                assert(mview(aa@) =~= aa2v);
                assert(mview(bb@) =~= bb2v);
            }
            indxr.set(i, irow);
            indxc.set(i, icol);
            let piv: Rat = aa[icol][icol];
            proof {
                assert(piv@ == aa2v[icol as int][icol as int]);
            }
            if piv.is_zero() {
                return Err(InterpError::SingularMatrix);
            }
            let pivinv: Rat = match Rat::one().over_r(piv) {
                Ok(v) => v,
                Err(e) => {
                    return Err(e);
                },
            };
            // the pivot row: diagonal set to one, then the row scaled
            let mut prow: Vec<Rat> = clone_rats(&aa[icol]);
            prow.set(icol, Rat::one());
            proof {
                assert(crate::rat::rvals(prow@) =~= aa2v[icol as int].update(
                    icol as int,
                    (1int, 1int),
                ));
            }
            let prow2: Vec<Rat> = match scale_row(&prow, pivinv) {
                Ok(v) => v,
                Err(e) => {
                    return Err(e);
                },
            };
            aa.set(icol, prow2);
            let qrow: Vec<Rat> = clone_rats(&bb[icol]);
            proof {
                assert(crate::rat::rvals(qrow@) =~= bb2v[icol as int]);
            }
            let qrow2: Vec<Rat> = match scale_row(&qrow, pivinv) {
                Ok(v) => v,
                Err(e) => {
                    return Err(e);
                },
            };
            bb.set(icol, qrow2);
            proof {
                assert(mview(aa@) =~= aa2v.update(icol as int, crate::rat::rvals(prow2@)));
                assert(mview(bb@) =~= bb2v.update(icol as int, crate::rat::rvals(qrow2@)));
                assert(target == gj_model_tail(
                    gj_after_elim(
                        gj_elim_rows(gj_cur(aa@, bb@, ipiv@, indxr@, indxc@), icol as int, 0),
                        i as int,
                        n as int,
                    ),
                    a_v,
                    b_v,
                ));
            }
            // eliminate the pivot column from every other row
            let mut ll: usize = 0;
            while ll < n
                invariant
                    0 <= ll <= n,
                    icol < n,
                    wf_mat(aa@, n as int, n as int),
                    wf_mat(bb@, n as int, m as int),
                    target == gj_model_tail(
                        gj_after_elim(
                            gj_elim_rows(
                                gj_cur(aa@, bb@, ipiv@, indxr@, indxc@),
                                icol as int,
                                ll as int,
                            ),
                            i as int,
                            n as int,
                        ),
                        a_v,
                        b_v,
                    ),
                decreases n - ll,
            {
                if ll != icol {
                    let ghost st_ll = gj_cur(aa@, bb@, ipiv@, indxr@, indxc@);
                    let dum: Rat = aa[ll][icol];
                    let na: Vec<Rat> = match elim_row(&aa[ll], &aa[icol], dum, true, icol) {
                        Ok(v) => v,
                        Err(e) => {
                            return Err(e);
                        },
                    };
                    aa.set(ll, na);
                    let nb: Vec<Rat> = match elim_row(&bb[ll], &bb[icol], dum, false, 0) {
                        Ok(v) => v,
                        Err(e) => {
                            proof {
                                assert(gj_elim_rows(st_ll, icol as int, ll as int) == Err::<
                                    GjState,
                                    InterpError,
                                >(e));
                            }
                            return Err(e);
                        },
                    };
                    bb.set(ll, nb);
                    proof {
                        assert(mview(aa@) =~= st_ll.aa.update(
                            ll as int,
                            crate::rat::rvals(na@),
                        ));
                        assert(mview(bb@) =~= st_ll.bb.update(
                            ll as int,
                            crate::rat::rvals(nb@),
                        ));
                        assert(gj_elim_rows(st_ll, icol as int, ll as int) == gj_elim_rows(
                            gj_cur(aa@, bb@, ipiv@, indxr@, indxc@),
                            icol as int,
                            ll as int + 1,
                        ));
                    }
                }
                ll = ll + 1;
            }
            i = i + 1;
        }

        // undo the column permutation of the inverse
        let ghost inv_t = gj_unscramble(mview(aa@), indxr@, indxc@, n as int);
        let ghost xx_v = mview(bb@);
        proof {
            assert(target == gj_cert_tail(
                gj_cert(a_v, inv_t, xx_v, b_v, 0, m as int),
                inv_t,
                xx_v,
            ));
        }
        let mut l: usize = n;
        while l >= 1
            invariant
                0 <= l <= n,
                wf_mat(aa@, n as int, n as int),
                inv_t == gj_unscramble(mview(aa@), indxr@, indxc@, l as int),
            decreases l,
        {
            let li: usize = l - 1;
            let c1: usize = indxr[li];
            let c2: usize = indxc[li];
            if c1 != c2 {
                let ghost rows_pre = mview(aa@);
                let mut rr: usize = 0;
                while rr < n
                    invariant
                        0 <= rr <= n,
                        c1 < n,
                        c2 < n,
                        c1 != c2,
                        wf_mat(aa@, n as int, n as int),
                        aa@.len() == n,
                        rows_pre.len() == n,
                        forall|t: int|
                            0 <= t < rr ==> #[trigger] mview(aa@)[t] == rows_pre[t].update(
                                c1 as int,
                                rows_pre[t][c2 as int],
                            ).update(c2 as int, rows_pre[t][c1 as int]),
                        forall|t: int| rr <= t < n ==> #[trigger] mview(aa@)[t] == rows_pre[t],
                    decreases n - rr,
                {
                    let mut row: Vec<Rat> = clone_rats(&aa[rr]);
                    proof {
                        assert(mview(aa@)[rr as int] == rows_pre[rr as int]);
                        assert(crate::rat::rvals(row@) =~= rows_pre[rr as int]);
                    }
                    let ghost aa_pre = aa@;
                    let t1: Rat = row[c1];
                    let t2: Rat = row[c2];
                    row.set(c1, t2);
                    row.set(c2, t1);
                    aa.set(rr, row);
                    proof {
                        assert(crate::rat::rvals(row@) =~= rows_pre[rr as int].update(
                            c1 as int,
                            rows_pre[rr as int][c2 as int],
                        ).update(c2 as int, rows_pre[rr as int][c1 as int]));
                        assert forall|t: int| 0 <= t < n && t != rr implies #[trigger] mview(
                            aa@,
                        )[t] == mview(aa_pre)[t] by {
                            assert(aa@[t] == aa_pre[t]);
                        }
                        assert(mview(aa@)[rr as int] == crate::rat::rvals(row@));
                    }
                    rr = rr + 1;
                }
                proof {
                    assert(mview(aa@) =~= Seq::new(
                        rows_pre.len(),
                        |t: int| rows_pre[t].update(c1 as int, rows_pre[t][c2 as int]).update(
                            c2 as int,
                            rows_pre[t][c1 as int],
                        ),
                    ));
                    assert(gj_unscramble(rows_pre, indxr@, indxc@, l as int) == gj_unscramble(
                        mview(aa@),
                        indxr@,
                        indxc@,
                        li as int,
                    ));
                }
            }
            l = li;
        }
        proof {
            assert(inv_t == mview(aa@));
        }

        // certify the result by exact multiplication
        let mut i2: usize = 0;
        while i2 < n
            invariant
                0 <= i2 <= n,
                wf_mat(aa@, n as int, n as int),
                wf_mat(bb@, n as int, m as int),
                inv_t == mview(aa@),
                xx_v == mview(bb@),
                target == gj_cert_tail(
                    gj_cert(a_v, inv_t, xx_v, b_v, i2 as int, m as int),
                    inv_t,
                    xx_v,
                ),
                forall|i3: int, jj: int|
                    0 <= i3 < i2 && 0 <= jj < m ==> rat_eq(
                        #[trigger] q_dot(mrow(a@, i3), mcol(bb@, jj), n as int),
                        b@[i3]@[jj]@,
                    ),
                forall|i3: int, jj: int|
                    0 <= i3 < i2 && 0 <= jj < n ==> rat_eq(
                        #[trigger] q_dot(mrow(a@, i3), mcol(aa@, jj), n as int),
                        kron(i3, jj),
                    ),
            decreases n - i2,
        {
            let mut jj: usize = 0;
            while jj < m
                invariant
                    0 <= jj <= m,
                    i2 < n,
                    gj_cert_brow(a_v, xx_v, b_v, i2 as int, 0, m as int) == gj_cert_brow(
                        a_v,
                        xx_v,
                        b_v,
                        i2 as int,
                        jj as int,
                        m as int,
                    ),
                    forall|jj2: int|
                        0 <= jj2 < jj ==> rat_eq(
                            #[trigger] q_dot(mrow(a@, i2 as int), mcol(bb@, jj2), n as int),
                            b@[i2 as int]@[jj2]@,
                        ),
                decreases m - jj,
            {
                proof {
                    assert(mrow(a@, i2 as int) =~= a_v[i2 as int]);
                    assert(mcol(bb@, jj as int) =~= mcolv(xx_v, jj as int));
                }
                match dot_matches(a, i2, &bb, jj, b[i2][jj]) {
                    Ok(true) => {},
                    Ok(false) => {
                        return Err(InterpError::SingularMatrix);
                    },
                    Err(e) => {
                        return Err(e);
                    },
                }
                jj = jj + 1;
            }
            let mut jk: usize = 0;
            while jk < n
                invariant
                    0 <= jk <= n,
                    i2 < n,
                    gj_cert_brow(a_v, xx_v, b_v, i2 as int, 0, m as int) == Ok::<
                        bool,
                        InterpError,
                    >(true),
                    gj_cert_irow(a_v, inv_t, i2 as int, 0) == gj_cert_irow(
                        a_v,
                        inv_t,
                        i2 as int,
                        jk as int,
                    ),
                    forall|jj2: int|
                        0 <= jj2 < jk ==> rat_eq(
                            #[trigger] q_dot(mrow(a@, i2 as int), mcol(aa@, jj2), n as int),
                            kron(i2 as int, jj2),
                        ),
                decreases n - jk,
            {
                let target_e: Rat = if i2 == jk {
                    Rat::one()
                } else {
                    Rat::zero()
                };
                proof {
                    assert(target_e@ == kron(i2 as int, jk as int));
                    assert(mrow(a@, i2 as int) =~= a_v[i2 as int]);
                    assert(mcol(aa@, jk as int) =~= mcolv(inv_t, jk as int));
                }
                match dot_matches(a, i2, &aa, jk, target_e) {
                    Ok(true) => {},
                    Ok(false) => {
                        return Err(InterpError::SingularMatrix);
                    },
                    Err(e) => {
                        return Err(e);
                    },
                }
                jk = jk + 1;
            }
            i2 = i2 + 1;
        }
        proof {
            assert(gj_cert(a_v, inv_t, xx_v, b_v, n as int, m as int) == Ok::<bool, InterpError>(
                true,
            ));
            assert(target == Ok::<(Seq<Seq<(int, int)>>, Seq<Seq<(int, int)>>), InterpError>(
                (inv_t, xx_v),
            ));
        }
        Ok((aa, bb))
    }
}

/// A working copy of a matrix, row views preserved.
fn clone_mat(v: &Vec<Vec<Rat>>) -> (r: Vec<Vec<Rat>>)
    ensures
        r@.len() == v@.len(),
        forall|i: int| 0 <= i < v@.len() ==> #[trigger] r@[i]@ == v@[i]@,
{
    let mut r: Vec<Vec<Rat>> = Vec::new();
    let mut i: usize = 0;
    while i < v.len()
        invariant
            0 <= i <= v@.len(),
            r@.len() == i,
            forall|k: int| 0 <= k < i ==> #[trigger] r@[k]@ == v@[k]@,
        decreases v@.len() - i,
    {
        r.push(clone_rats(&v[i]));
        i = i + 1;
    }
    r
}

/// A vector of `n` cleared flags.
fn flags_vec(n: usize) -> (r: Vec<bool>)
    ensures
        r@.len() == n,
        forall|t: int| 0 <= t < n ==> !(#[trigger] r@[t]),
{
    let mut r: Vec<bool> = Vec::new();
    let mut i: usize = 0;
    while i < n
        invariant
            r@.len() == i,
            0 <= i <= n,
            forall|t: int| 0 <= t < i ==> !(#[trigger] r@[t]),
        decreases n - i,
    {
        r.push(false);
        i = i + 1;
    }
    r
}

/// A vector of `n` zero indices.
fn index_vec(n: usize) -> (r: Vec<usize>)
    ensures
        r@.len() == n,
        forall|t: int| 0 <= t < n ==> #[trigger] r@[t] == 0,
{
    let mut r: Vec<usize> = Vec::new();
    let mut i: usize = 0;
    while i < n
        invariant
            r@.len() == i,
            0 <= i <= n,
            forall|t: int| 0 <= t < i ==> #[trigger] r@[t] == 0,
        decreases n - i,
    {
        r.push(0);
        i = i + 1;
    }
    r
}

/// A row multiplied through by `f`, exactly as `gj_scale` says.
#[verifier::loop_isolation(false)]
fn scale_row(row: &Vec<Rat>, f: Rat) -> (r: Result<Vec<Rat>, InterpError>)
    requires
        wf_table(row@),
        rat_wf(f@),
    ensures
        row_res_view(r) == gj_scale(crate::rat::rvals(row@), f@, 0, Seq::empty()),
        r matches Ok(v) ==> v@.len() == row@.len() && wf_table(v@),
        r matches Err(e) ==> e == InterpError::Overflow,
{
    let ghost rowv = crate::rat::rvals(row@);
    let ghost target = gj_scale(rowv, f@, 0, Seq::empty());
    let mut out: Vec<Rat> = Vec::new();
    proof {
        assert(crate::rat::rvals(out@) =~= Seq::<(int, int)>::empty());
    }
    let mut i: usize = 0;
    while i < row.len()
        invariant
            0 <= i <= row@.len(),
            out@.len() == i,
            wf_table(out@),
            target == gj_scale(rowv, f@, i as int, crate::rat::rvals(out@)),
        decreases row@.len() - i,
    {
        let ghost out_pre = crate::rat::rvals(out@);
        let v: Rat = match row[i].times_r(f) {
            Ok(v) => v,
            Err(e) => {
                return Err(e);
            },
        };
        out.push(v);
        proof {
            assert(crate::rat::rvals(out@) =~= out_pre.push(v@));
        }
        i = i + 1;
    }
    Ok(out)
}

/// One elimination step: entry `t` of the result is
/// `row[t] - base[t] * dum`, with entry `zero_idx` of `row` read as zero
/// first when `zero_at` is set (the coefficient entry being eliminated);
/// exactly as `gj_elim` says.
#[verifier::loop_isolation(false)]
fn elim_row(row: &Vec<Rat>, base: &Vec<Rat>, dum: Rat, zero_at: bool, zero_idx: usize) -> (r:
    Result<Vec<Rat>, InterpError>)
    requires
        wf_table(row@),
        wf_table(base@),
        row@.len() == base@.len(),
        rat_wf(dum@),
    ensures
        row_res_view(r) == gj_elim(
            crate::rat::rvals(row@),
            crate::rat::rvals(base@),
            dum@,
            zero_at,
            zero_idx as int,
            0,
            Seq::empty(),
        ),
        r matches Ok(v) ==> v@.len() == row@.len() && wf_table(v@),
        r matches Err(e) ==> e == InterpError::Overflow,
{
    let ghost rowv = crate::rat::rvals(row@);
    let ghost basev = crate::rat::rvals(base@);
    let ghost target = gj_elim(rowv, basev, dum@, zero_at, zero_idx as int, 0, Seq::empty());
    let mut out: Vec<Rat> = Vec::new();
    proof {
        assert(crate::rat::rvals(out@) =~= Seq::<(int, int)>::empty());
    }
    let mut i: usize = 0;
    while i < row.len()
        invariant
            0 <= i <= row@.len(),
            out@.len() == i,
            wf_table(out@),
            target == gj_elim(
                rowv,
                basev,
                dum@,
                zero_at,
                zero_idx as int,
                i as int,
                crate::rat::rvals(out@),
            ),
        decreases row@.len() - i,
    {
        let ghost out_pre = crate::rat::rvals(out@);
        let cur: Rat = if zero_at && i == zero_idx {
            Rat::zero()
        } else {
            row[i]
        };
        let t: Rat = match base[i].times_r(dum) {
            Ok(v) => v,
            Err(e) => {
                return Err(e);
            },
        };
        let v: Rat = match cur.minus_r(t) {
            Ok(v) => v,
            Err(e) => {
                return Err(e);
            },
        };
        out.push(v);
        proof {
            assert(crate::rat::rvals(out@) =~= out_pre.push(v@));
        }
        i = i + 1;
    }
    Ok(out)
}

} // verus!
