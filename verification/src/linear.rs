//! Two-point linear interpolation.

use vstd::prelude::*;

use crate::errors::InterpError;
use crate::interpolator::Interpolate1D;
use crate::rat::{
    lemma_rat_eq_trans, lemma_s_diff_ok, lemma_s_prod_ok, lemma_s_quot_ok, lemma_s_sum_ok,
    q_diff, q_prod, q_quot, q_sum, rat_eq, rat_wf, res_view, s_diff, s_prod, s_quot, s_sum,
    srat_diff, srat_prod, srat_quot, srat_sum, Rat,
};
use crate::search::{
    clamp_window, is_raw_bracket, lemma_raw_bracket_unique, lt_dir, raw_bracket, searchable,
    spec_locate, wf_table, BisectHunt1D, Search,
};

verus! {

/// The checked value of the two-point linear formula
/// `y0 + (y1 - y0) * ((x - x0) / (x1 - x0))`.
pub open spec fn lin_formula(
    q: (int, int),
    x0: (int, int),
    x1: (int, int),
    y0: (int, int),
    y1: (int, int),
) -> Result<(int, int), InterpError> {
    s_sum(
        Ok(y0),
        s_prod(s_diff(Ok(y1), Ok(y0)), s_quot(s_diff(Ok(q), Ok(x0)), s_diff(Ok(x1), Ok(x0)))),
    )
}

/// One-dimensional linear interpolator.
pub struct Linear1D {
    /// The abscissa table, strictly monotone.
    pub x: Vec<Rat>,
    /// The ordinate table, same length.
    pub y: Vec<Rat>,
    /// The bracket locator, bound to `x` with a two-point evaluation pair.
    pub search: BisectHunt1D,
}

impl Linear1D {
    /// Builds a linear interpolator over the tables `x`, `y`.
    ///
    /// Accepts exactly equal-length tables whose abscissas form a strictly
    /// monotone table of at least two points; anything else is an
    /// `InvalidTable` error.
    pub fn new(x: Vec<Rat>, y: Vec<Rat>) -> (r: Result<Linear1D, InterpError>)
        requires
            wf_table(x@),
            wf_table(y@),
        ensures
            r is Ok <==> (x@.len() == y@.len() && searchable(x@, 2)),
            r is Err ==> r == Err::<Linear1D, InterpError>(InterpError::InvalidTable),
            r matches Ok(li) ==> li.valid() && li.x@ == x@ && li.y@ == y@
                && li.search.m == 2 && li.search.corr == false && li.search.i_save is None,
    {
        if x.len() != y.len() {
            return Err(InterpError::InvalidTable);
        }
        match BisectHunt1D::new(&x, 2) {
            Ok(search) => Ok(Linear1D { x, y, search }),
            Err(e) => Err(e),
        }
    }

    /// Evaluates the linear formula over the adjacent pair starting at `i`.
    fn interpolate_at(&self, x: Rat, i: usize) -> (r: Result<Rat, InterpError>)
        requires
            self.valid(),
            rat_wf(x@),
            i + 1 < self.x@.len(),
        ensures
            res_view(r) == lin_formula(
                x@,
                self.x@[i as int]@,
                self.x@[i as int + 1]@,
                self.y@[i as int]@,
                self.y@[i as int + 1]@,
            ),
            r is Ok ==> rat_wf(r.unwrap()@),
    {
        let x0: Rat = self.x[i];
        let x1: Rat = self.x[i + 1];
        let y0: Rat = self.y[i];
        let y1: Rat = self.y[i + 1];
        let dy: Rat = match y1.minus_r(y0) {
            Ok(v) => v,
            Err(e) => {
                return Err(e);
            },
        };
        let num: Rat = match x.minus_r(x0) {
            Ok(v) => v,
            Err(e) => {
                return Err(e);
            },
        };
        let den: Rat = match x1.minus_r(x0) {
            Ok(v) => v,
            Err(e) => {
                return Err(e);
            },
        };
        let ratio: Rat = match num.over_r(den) {
            Ok(v) => v,
            Err(e) => {
                return Err(e);
            },
        };
        let scaled: Rat = match dy.times_r(ratio) {
            Ok(v) => v,
            Err(e) => {
                return Err(e);
            },
        };
        match y0.plus_r(scaled) {
            Ok(v) => Ok(v),
            Err(e) => Err(e),
        }
    }
}

impl Interpolate1D for Linear1D {
    open spec fn valid(&self) -> bool {
        &&& self.search.valid_for(self.x@)
        &&& self.search.m == 2
        &&& self.y@.len() == self.x@.len()
        &&& wf_table(self.y@)
    }

    open spec fn tables(&self) -> Seq<Seq<Rat>> {
        seq![self.x@, self.y@]
    }

    open spec fn model(&self, q: (int, int)) -> Result<(int, int), InterpError> {
        let t = self.x@;
        let j = spec_locate(t, self.search.ascend, 2, q);
        lin_formula(q, t[j]@, t[j + 1]@, self.y@[j]@, self.y@[j + 1]@)
    }

    fn interpolate(&mut self, x: Rat) -> (r: Result<Rat, InterpError>) {
        let i: usize = self.search.locate(&self.x, x);
        self.interpolate_at(x, i)
    }
}

// ---------------------------------------------------------------------------
// Knot reproduction.
// ---------------------------------------------------------------------------


/// Ring identity: subtracting `c` from two equal rationals gives equal
/// rationals.
#[verifier::rlimit(100)]
proof fn lemma_ring_diff_congr(a0: int, a1: int, b0: int, b1: int, c0: int, c1: int)
    by (nonlinear_arith)
    requires
        a0 * b1 == b0 * a1,
    ensures
        (a0 * c1 - c0 * a1) * (b1 * c1) == (b0 * c1 - c0 * b1) * (a1 * c1),
{
}

/// Ring identity: adding back a difference restores the minuend.
#[verifier::rlimit(100)]
proof fn lemma_ring_sum_collapse(p0: int, p1: int, u0: int, u1: int, v0: int, v1: int)
    by (nonlinear_arith)
    requires
        p0 * (v1 * u1) == (v0 * u1 - u0 * v1) * p1,
    ensures
        (u0 * p1 + p0 * u1) * v1 == v0 * (u1 * p1),
{
}

/// The linear formula over a nondegenerate pair can only fail by overflow,
/// and reproduces the pair's own endpoints exactly.
proof fn lemma_lin_formula_cases(
    q: (int, int),
    x0: (int, int),
    x1: (int, int),
    y0: (int, int),
    y1: (int, int),
)
    requires
        rat_wf(q),
        rat_wf(x0),
        rat_wf(x1),
        rat_wf(y0),
        rat_wf(y1),
        !rat_eq(x1, x0),
    ensures
        lin_formula(q, x0, x1, y0, y1) is Err ==> lin_formula(q, x0, x1, y0, y1) == Err::<
            (int, int),
            InterpError,
        >(InterpError::Overflow),
        lin_formula(q, x0, x1, y0, y1) matches Ok(v) ==> rat_wf(v) && (rat_eq(q, x0)
            ==> rat_eq(v, y0)) && (rat_eq(q, x1) ==> rat_eq(v, y1)),
{
    if srat_diff(y1, y0) is None {
        return ;
    }
    let dv = srat_diff(y1, y0).unwrap();
    lemma_s_diff_ok(y1, y0);
    if srat_diff(q, x0) is None {
        return ;
    }
    let nv = srat_diff(q, x0).unwrap();
    lemma_s_diff_ok(q, x0);
    if srat_diff(x1, x0) is None {
        return ;
    }
    let ev = srat_diff(x1, x0).unwrap();
    lemma_s_diff_ok(x1, x0);
    // the divisor is nonzero: the pair's abscissas differ
    assert(ev.0 != 0) by {
        assert(rat_eq(ev, q_diff(x1, x0)));
        if ev.0 == 0 {
            assert(q_diff(x1, x0).0 * ev.1 == 0);
            assert(q_diff(x1, x0).0 == 0) by (nonlinear_arith)
                requires
                    q_diff(x1, x0).0 * ev.1 == 0,
                    ev.1 >= 1,
            ;
            assert(x1.0 * x0.1 - x0.0 * x1.1 == 0);
            assert(rat_eq(x1, x0));
        }
    }
    if srat_quot(nv, ev) is None {
        return ;
    }
    let tv = srat_quot(nv, ev).unwrap();
    lemma_s_quot_ok(nv, ev);
    if srat_prod(dv, tv) is None {
        return ;
    }
    let pv = srat_prod(dv, tv).unwrap();
    lemma_s_prod_ok(dv, tv);
    if srat_sum(y0, pv) is None {
        return ;
    }
    let rv = srat_sum(y0, pv).unwrap();
    lemma_s_sum_ok(y0, pv);
    assert(lin_formula(q, x0, x1, y0, y1) == Ok::<(int, int), InterpError>(rv));

    if rat_eq(q, x0) {
        // the ratio is zero, so the result collapses to y0
        assert(nv.0 == 0) by (nonlinear_arith)
            requires
                nv.0 * q_diff(q, x0).1 == q_diff(q, x0).0 * nv.1,
                q.0 * x0.1 == x0.0 * q.1,
                q_diff(q, x0).0 == q.0 * x0.1 - x0.0 * q.1,
                q_diff(q, x0).1 >= 1,
        ;
        assert(tv.0 == 0) by (nonlinear_arith)
            requires
                tv.0 * q_quot(nv, ev).1 == q_quot(nv, ev).0 * tv.1,
                q_quot(nv, ev).0 == nv.0 * ev.1,
                nv.0 == 0,
                q_quot(nv, ev).1 != 0,
        ;
        assert(pv.0 == 0) by (nonlinear_arith)
            requires
                pv.0 * q_prod(dv, tv).1 == q_prod(dv, tv).0 * pv.1,
                q_prod(dv, tv).0 == dv.0 * tv.0,
                tv.0 == 0,
                q_prod(dv, tv).1 >= 1,
        ;
        assert(rat_eq(q_sum(y0, pv), y0)) by (nonlinear_arith)
            requires
                pv.0 == 0,
                q_sum(y0, pv) == (y0.0 * pv.1 + pv.0 * y0.1, y0.1 * pv.1),
        ;
        assert(q_sum(y0, pv).1 != 0) by (nonlinear_arith)
            requires
                y0.1 >= 1,
                pv.1 >= 1,
                q_sum(y0, pv).1 == y0.1 * pv.1,
        ;
        lemma_rat_eq_trans(rv, q_sum(y0, pv), y0);
    }

    if rat_eq(q, x1) {
        // the ratio is one, so the result collapses to y1
        assert(rat_eq(nv, ev)) by {
            assert(rat_eq(q_diff(q, x0), q_diff(x1, x0))) by {
                lemma_ring_diff_congr(q.0, q.1, x1.0, x1.1, x0.0, x0.1);
            }
            assert(q_diff(q, x0).1 != 0) by (nonlinear_arith)
                requires
                    q.1 >= 1,
                    x0.1 >= 1,
                    q_diff(q, x0).1 == q.1 * x0.1,
            ;
            lemma_rat_eq_trans(nv, q_diff(q, x0), q_diff(x1, x0));
            assert(q_diff(x1, x0).1 != 0) by (nonlinear_arith)
                requires
                    x1.1 >= 1,
                    x0.1 >= 1,
                    q_diff(x1, x0).1 == x1.1 * x0.1,
            ;
            assert(rat_eq(q_diff(x1, x0), ev));
            lemma_rat_eq_trans(nv, q_diff(x1, x0), ev);
        }
        assert(tv.0 == tv.1) by (nonlinear_arith)
            requires
                tv.0 * q_quot(nv, ev).1 == q_quot(nv, ev).0 * tv.1,
                q_quot(nv, ev).0 == nv.0 * ev.1,
                q_quot(nv, ev).1 == nv.1 * ev.0,
                nv.0 * ev.1 == ev.0 * nv.1,
                q_quot(nv, ev).1 != 0,
        ;
        assert(rat_eq(pv, dv)) by {
            assert(rat_eq(q_prod(dv, tv), dv)) by (nonlinear_arith)
                requires
                    tv.0 == tv.1,
                    tv.1 >= 1,
                    q_prod(dv, tv) == (dv.0 * tv.0, dv.1 * tv.1),
            ;
            assert(q_prod(dv, tv).1 != 0) by (nonlinear_arith)
                requires
                    dv.1 >= 1,
                    tv.1 >= 1,
                    q_prod(dv, tv).1 == dv.1 * tv.1,
            ;
            lemma_rat_eq_trans(pv, q_prod(dv, tv), dv);
        }
        assert(rat_eq(rv, y1)) by {
            assert(rat_eq(pv, q_diff(y1, y0))) by {
                assert(q_diff(y1, y0).1 != 0) by (nonlinear_arith)
                    requires
                        y1.1 >= 1,
                        y0.1 >= 1,
                        q_diff(y1, y0).1 == y1.1 * y0.1,
                ;
                assert(dv.1 >= 1);
                lemma_rat_eq_trans(pv, dv, q_diff(y1, y0));
            }
            assert(rat_eq(q_sum(y0, pv), y1)) by {
                lemma_ring_sum_collapse(pv.0, pv.1, y0.0, y0.1, y1.0, y1.1);
            }
            assert(q_sum(y0, pv).1 != 0) by (nonlinear_arith)
                requires
                    y0.1 >= 1,
                    pv.1 >= 1,
                    q_sum(y0, pv).1 == y0.1 * pv.1,
            ;
            lemma_rat_eq_trans(rv, q_sum(y0, pv), y1);
        }
    }
}

/// Linear interpolation reproduces the table's own values: querying the
/// interpolator at a knot `x[i]` yields `y[i]` exactly whenever the
/// evaluation does not overflow — and overflow is the only failure a
/// valid table admits.
///
/// The clamping of the evaluation pair at the table's high end makes the
/// last knot extrapolate instead (and, on a descending table, the knot at
/// index two falls outside its clamped pair the same way), so those indices
/// are excluded.
pub proof fn lemma_linear_reproduces_knot(li: Linear1D, i: int)
    requires
        li.valid(),
        0 <= i < li.x@.len() - 1,
        !li.search.ascend ==> i != 2,
    ensures
        li.model(li.x@[i]@) is Ok ==> rat_eq(li.model(li.x@[i]@).unwrap(), li.y@[i]@),
        li.model(li.x@[i]@) is Err ==> li.model(li.x@[i]@) == Err::<(int, int), InterpError>(
            InterpError::Overflow,
        ),
{
    let t = li.x@;
    let n = t.len() as int;
    let asc = li.search.ascend;
    let q = t[i]@;
    // the raw bracket of a knot
    let l: int = if asc {
        i
    } else {
        if i == 0 {
            0
        } else {
            i - 1
        }
    };
    assert(is_raw_bracket(t, asc, q, l)) by {
        if asc {
            if i != n - 2 {
                assert(lt_dir(asc, t[i]@, t[i + 1]@));
            }
        } else {
            if i != 0 {
                assert(lt_dir(asc, t[i - 1]@, t[i]@));
            }
            if i == 0 && 0 != n - 2 {
                assert(lt_dir(asc, t[0]@, t[1]@));
            }
        }
    }
    assert(exists|w: int| is_raw_bracket(t, asc, q, w)) by {
        assert(is_raw_bracket(t, asc, q, l));
    }
    lemma_raw_bracket_unique(t, asc, q, raw_bracket(t, asc, q), l);
    let j = clamp_window(l, n, 2);
    assert(spec_locate(t, asc, 2, q) == j);
    // the knot is an endpoint of the clamped evaluation pair
    assert(q == t[j]@ || q == t[j + 1]@);
    assert(!rat_eq(t[j + 1]@, t[j]@)) by {
        assert(lt_dir(asc, t[j]@, t[j + 1]@));
    }
    lemma_lin_formula_cases(q, t[j]@, t[j + 1]@, li.y@[j]@, li.y@[j + 1]@);
}

} // verus!
