//! Local polynomial interpolation by Neville's algorithm.
//!
//! `neville` evaluates, at a query point, the unique polynomial through a
//! set of sample points, by the numerically direct tableau recurrence rather
//! than through explicit coefficients. `Poly1D` wires it to the bracket
//! locator: each query interpolates over the window of `m + 1` table points
//! around the query.

use vstd::prelude::*;

use crate::errors::InterpError;
use crate::interpolator::Interpolate1D;
use crate::rat::{
    copy_window, lemma_den_pos, lemma_q_diff_congr, lemma_q_prod_congr, lemma_q_quot_congr,
    lemma_rat_eq_trans, lemma_s_diff_ok, lemma_s_prod_ok, lemma_s_quot_ok, q_diff, q_prod, q_quot,
    rat_eq, rat_wf, res_view, rvals, s_diff, s_prod, s_quot, srat_diff, srat_prod, srat_quot, Rat,
};
use crate::search::{
    lemma_monotone_pairs, lt_dir, searchable, spec_locate, wf_table, BisectHunt1D, Search,
};

verus! {

/// One step of Neville's recurrence as a checked computation:
/// `((q - xk) * pk1 - (q - xkl) * pk) / (xkl - xk)`.
pub open spec fn nev_entry(
    q: (int, int),
    xk: (int, int),
    xkl: (int, int),
    pk: (int, int),
    pk1: (int, int),
) -> Result<(int, int), InterpError> {
    s_quot(
        s_diff(s_prod(s_diff(Ok(q), Ok(xk)), Ok(pk1)), s_prod(s_diff(Ok(q), Ok(xkl)), Ok(pk))),
        s_diff(Ok(xkl), Ok(xk)),
    )
}

/// The remaining updates of one tableau level: entries `k` up to
/// `len - 1 - lev` are recomputed left to right, each from its old value and
/// its right neighbour.
pub open spec fn nev_row(
    q: (int, int),
    xa: Seq<(int, int)>,
    row: Seq<(int, int)>,
    lev: int,
    k: int,
) -> Result<Seq<(int, int)>, InterpError>
    decreases xa.len() - k,
{
    if lev < 1 || k < 0 || k > xa.len() - 1 - lev {
        Ok(row)
    } else {
        match nev_entry(q, xa[k], xa[k + lev], row[k], row[k + 1]) {
            Err(e) => Err(e),
            Ok(v) => nev_row(q, xa, row.update(k, v), lev, k + 1),
        }
    }
}

/// The remaining tableau levels, from `lev` up to the full width.
pub open spec fn nev_levels(
    q: (int, int),
    xa: Seq<(int, int)>,
    row: Seq<(int, int)>,
    lev: int,
) -> Result<Seq<(int, int)>, InterpError>
    decreases xa.len() - lev,
{
    if lev < 1 || lev > xa.len() - 1 {
        Ok(row)
    } else {
        match nev_row(q, xa, row, lev, 0) {
            Err(e) => Err(e),
            Ok(r2) => nev_levels(q, xa, r2, lev + 1),
        }
    }
}

/// The checked value of Neville interpolation over the points
/// `(xa[i], ya[i])` at query `q`: the completed tableau's first entry.
pub open spec fn nev_value(
    q: (int, int),
    xa: Seq<(int, int)>,
    ya: Seq<(int, int)>,
) -> Result<(int, int), InterpError> {
    match nev_levels(q, xa, ya, 1) {
        Err(e) => Err(e),
        Ok(row) => Ok(row[0]),
    }
}

/// One executable step of the recurrence, exactly as `nev_entry` says.
fn neville_step(q: Rat, xk: Rat, xkl: Rat, pk: Rat, pk1: Rat) -> (r: Result<Rat, InterpError>)
    requires
        rat_wf(q@),
        rat_wf(xk@),
        rat_wf(xkl@),
        rat_wf(pk@),
        rat_wf(pk1@),
    ensures
        res_view(r) == nev_entry(q@, xk@, xkl@, pk@, pk1@),
        r is Ok ==> rat_wf(r.unwrap()@),
{
    let a1: Rat = match q.minus_r(xk) {
        Ok(v) => v,
        Err(e) => {
            return Err(e);
        },
    };
    let t1: Rat = match a1.times_r(pk1) {
        Ok(v) => v,
        Err(e) => {
            return Err(e);
        },
    };
    let a2: Rat = match q.minus_r(xkl) {
        Ok(v) => v,
        Err(e) => {
            return Err(e);
        },
    };
    let t2: Rat = match a2.times_r(pk) {
        Ok(v) => v,
        Err(e) => {
            return Err(e);
        },
    };
    let num: Rat = match t1.minus_r(t2) {
        Ok(v) => v,
        Err(e) => {
            return Err(e);
        },
    };
    let den: Rat = match xkl.minus_r(xk) {
        Ok(v) => v,
        Err(e) => {
            return Err(e);
        },
    };
    match num.over_r(den) {
        Ok(v) => Ok(v),
        Err(e) => Err(e),
    }
}

/// Evaluates at `q` the unique polynomial through the points
/// `(xa[i], ya[i])`, by Neville's tableau.
///
/// Reports `DegenerateInterval` when the recurrence divides by a zero
/// difference of coincident abscissas, and `Overflow` when an exact
/// intermediate leaves the representable range, exactly as `nev_value`
/// describes.
pub fn neville(xa: &Vec<Rat>, ya: &Vec<Rat>, q: Rat) -> (r: Result<Rat, InterpError>)
    requires
        wf_table(xa@),
        wf_table(ya@),
        xa@.len() == ya@.len(),
        1 <= xa@.len(),
        rat_wf(q@),
    ensures
        res_view(r) == nev_value(q@, rvals(xa@), rvals(ya@)),
        r is Ok ==> rat_wf(r.unwrap()@),
{
    let n: usize = xa.len();
    let mm: usize = n - 1;
    let ghost xv = rvals(xa@);
    let ghost target = nev_levels(q@, xv, rvals(ya@), 1);
    let mut w: Vec<Rat> = crate::rat::clone_rats(ya);
    let mut lev: usize = 1;
    while lev <= mm
        invariant
            1 <= lev <= mm + 1,
            n == xa@.len(),
            n == ya@.len(),
            n == mm + 1,
            1 <= n,
            w@.len() == n,
            wf_table(xa@),
            wf_table(w@),
            rat_wf(q@),
            xv == rvals(xa@),
            target == nev_levels(q@, xv, rvals(ya@), 1),
            target == nev_levels(q@, xv, rvals(w@), lev as int),
        decreases mm + 1 - lev,
    {
        let mut k: usize = 0;
        while k + lev <= mm
            invariant
                1 <= lev <= mm,
                0 <= k <= mm + 1 - lev,
                n == xa@.len(),
                n == mm + 1,
                w@.len() == n,
                wf_table(xa@),
                wf_table(w@),
                rat_wf(q@),
                xv == rvals(xa@),
                n == ya@.len(),
                target == nev_levels(q@, xv, rvals(ya@), 1),
                target == (match nev_row(q@, xv, rvals(w@), lev as int, k as int) {
                    Err(e) => Err(e),
                    Ok(r2) => nev_levels(q@, xv, r2, lev as int + 1),
                }),
            decreases mm + 1 - lev - k,
        {
            let xk: Rat = xa[k];
            let xkl: Rat = xa[k + lev];
            let pk: Rat = w[k];
            let pk1: Rat = w[k + 1];
            let ghost w_pre = rvals(w@);
            let val: Rat = match neville_step(q, xk, xkl, pk, pk1) {
                Ok(v) => v,
                Err(e) => {
                    proof {
                        assert(nev_row(q@, xv, w_pre, lev as int, k as int) == Err::<
                            Seq<(int, int)>,
                            InterpError,
                        >(e));
                    }
                    return Err(e);
                },
            };
            w.set(k, val);
            proof {
                assert(rvals(w@) =~= w_pre.update(k as int, val@));
                assert(nev_row(q@, xv, w_pre, lev as int, k as int) == nev_row(
                    q@,
                    xv,
                    rvals(w@),
                    lev as int,
                    k as int + 1,
                ));
            }
            k = k + 1;
        }
        lev = lev + 1;
    }
    proof {
        assert(nev_levels(q@, xv, rvals(w@), lev as int) == Ok::<Seq<(int, int)>, InterpError>(
            rvals(w@),
        ));
        assert(nev_value(q@, rvals(xa@), rvals(ya@)) == Ok::<(int, int), InterpError>(
            rvals(w@)[0],
        ));
        assert(rvals(w@)[0] == w@[0]@);
    }
    Ok(w[0])
}

/// One-dimensional polynomial interpolator over a sliding window of
/// `m + 1` table points.
pub struct Poly1D {
    /// The abscissa table, strictly monotone.
    pub x: Vec<Rat>,
    /// The ordinate table, same length.
    pub y: Vec<Rat>,
    /// The window size minus one: the local interpolation degree.
    pub m: usize,
    /// The bracket locator, bound to `x`.
    pub search: BisectHunt1D,
}

impl Poly1D {
    /// Builds a polynomial interpolator of local degree `m` over the tables
    /// `x`, `y`.
    ///
    /// Accepts exactly equal-length tables whose abscissas form a strictly
    /// monotone table of at least `m + 1` points with `m` at least two;
    /// anything else is an `InvalidTable` error.
    pub fn new(x: Vec<Rat>, y: Vec<Rat>, m: usize) -> (r: Result<Poly1D, InterpError>)
        requires
            wf_table(x@),
            wf_table(y@),
        ensures
            r is Ok <==> (x@.len() == y@.len() && searchable(x@, m as int) && m + 1
                <= x@.len()),
            r is Err ==> r == Err::<Poly1D, InterpError>(InterpError::InvalidTable),
            r matches Ok(p) ==> p.valid() && p.x@ == x@ && p.y@ == y@ && p.m == m
                && p.search.m == m && p.search.corr == false && p.search.i_save is None,
    {
        if x.len() != y.len() {
            return Err(InterpError::InvalidTable);
        }
        // the evaluation window slices m + 1 consecutive points
        if x.len() <= m {
            return Err(InterpError::InvalidTable);
        }
        match BisectHunt1D::new(&x, m) {
            Ok(search) => Ok(Poly1D { x, y, m, search }),
            Err(e) => Err(e),
        }
    }
}

impl Interpolate1D for Poly1D {
    open spec fn valid(&self) -> bool {
        &&& self.search.valid_for(self.x@)
        &&& self.search.m == self.m
        &&& self.m + 1 <= self.x@.len()
        &&& self.y@.len() == self.x@.len()
        &&& wf_table(self.y@)
    }

    open spec fn tables(&self) -> Seq<Seq<Rat>> {
        seq![self.x@, self.y@]
    }

    open spec fn model(&self, q: (int, int)) -> Result<(int, int), InterpError> {
        let t = self.x@;
        let m = self.m as int;
        let j = spec_locate(t, self.search.ascend, m, q);
        nev_value(
            q,
            rvals(t.subrange(j, j + m + 1)),
            rvals(self.y@.subrange(j, j + m + 1)),
        )
    }

    #[verifier::rlimit(100)]
    fn interpolate(&mut self, x: Rat) -> (r: Result<Rat, InterpError>) {
        let ghost pre = *self;
        let i: usize = self.search.locate(&self.x, x);
        proof {
            assert(i as int == spec_locate(pre.x@, pre.search.ascend, pre.m as int, x@));
            assert(forall|q: (int, int)| #[trigger] self.model(q) == pre.model(q));
        }
        let wx: Vec<Rat> = copy_window(&self.x, i, self.m + 1);
        let wy: Vec<Rat> = copy_window(&self.y, i, self.m + 1);
        proof {
            assert forall|k: int| 0 <= k < wx@.len() implies rat_wf(#[trigger] wx@[k]@) by {
                assert(wx@[k] == self.x@[i + k]);
            }
            assert forall|k: int| 0 <= k < wy@.len() implies rat_wf(#[trigger] wy@[k]@) by {
                assert(wy@[k] == self.y@[i + k]);
            }
        }
        let r = neville(&wx, &wy, x);
        proof {
            assert(res_view(r) == nev_value(x@, rvals(wx@), rvals(wy@)));
            assert(res_view(r) == pre.model(x@));
        }
        r
    }
}


// ---------------------------------------------------------------------------
// Knot reproduction: the interpolant passes through every sample point.
// ---------------------------------------------------------------------------

/// Every pair in the sequence is a well-formed rational.
pub open spec fn wf_vals(s: Seq<(int, int)>) -> bool {
    forall|i: int| 0 <= i < s.len() ==> rat_wf(#[trigger] s[i])
}

/// No two entries denote the same rational.
pub open spec fn distinct_vals(s: Seq<(int, int)>) -> bool {
    forall|i: int, j: int| 0 <= i < j < s.len() ==> !rat_eq(#[trigger] s[i], #[trigger] s[j])
}

/// Ring helper: a six-factor product regroups freely (first shape).
proof fn lemma_regroup6a(a: int, b: int, c: int, d: int, e: int, f: int)
    by (nonlinear_arith)
    ensures
        (((a * b) * (c * d)) * e) * f == (a * e) * (b * (c * (d * f))),
{
}

/// Ring helper: a six-factor product regroups freely (second shape).
proof fn lemma_regroup6b(a: int, b: int, c: int, d: int, e: int, f: int)
    by (nonlinear_arith)
    ensures
        f * (((a * b) * (c * d)) * e) == (e * a) * (f * (c * (d * b))),
{
}

/// Ring helper: a common factor distributes out of a difference.
proof fn lemma_mul_sub_factor(x: int, y: int, c: int, z: int)
    by (nonlinear_arith)
    ensures
        (x * c - y * c) * z == ((x - y) * c) * z,
{
}

/// Ring helper: multiplication distributes over subtraction.
proof fn lemma_sub_mul(x: int, y: int, z: int)
    by (nonlinear_arith)
    ensures
        (x - y) * z == x * z - y * z,
{
}

/// Ring helper: products of four factors regroup freely.
proof fn lemma_regroup4(a: int, b: int, c: int, d: int)
    by (nonlinear_arith)
    ensures
        (a * b) * (c * d) == (a * c) * (b * d),
{
}

/// Ring helper: a five-factor product regroups freely.
proof fn lemma_shuffle5(s: int, p0: int, p1: int, u1: int, v1: int)
    by (nonlinear_arith)
    ensures
        (s * (p0 * p1)) * ((u1 * v1) * p1) == (s * p0) * ((u1 * p1) * (v1 * p1)),
{
}

/// A shared right factor distributes out of a difference of products.
proof fn lemma_q_right_distrib(u: (int, int), v: (int, int), p: (int, int))
    ensures
        rat_eq(q_diff(q_prod(u, p), q_prod(v, p)), q_prod(q_diff(u, v), p)),
{
    let lhs = q_diff(q_prod(u, p), q_prod(v, p));
    let rhs = q_prod(q_diff(u, v), p);
    lemma_regroup4(u.0, p.0, v.1, p.1);
    assert((u.0 * p.0) * (v.1 * p.1) == (u.0 * v.1) * (p.0 * p.1));
    lemma_regroup4(v.0, p.0, u.1, p.1);
    assert((v.0 * p.0) * (u.1 * p.1) == (v.0 * u.1) * (p.0 * p.1));
    assert(lhs.0 == (u.0 * v.1) * (p.0 * p.1) - (v.0 * u.1) * (p.0 * p.1));
    lemma_mul_sub_factor(u.0 * v.1, v.0 * u.1, p.0 * p.1, (u.1 * v.1) * p.1);
    assert(lhs.0 * ((u.1 * v.1) * p.1) == ((u.0 * v.1 - v.0 * u.1) * (p.0 * p.1)) * ((u.1 * v.1)
        * p.1));
    lemma_shuffle5(u.0 * v.1 - v.0 * u.1, p.0, p.1, u.1, v.1);
    assert(lhs.0 * ((u.1 * v.1) * p.1) == ((u.0 * v.1 - v.0 * u.1) * p.0) * ((u.1 * p.1) * (v.1
        * p.1)));
    assert(lhs.0 * rhs.1 == rhs.0 * lhs.1);
}

/// The telescoped difference `(q - a) - (q - b)` denotes `b - a`.
proof fn lemma_q_telescope(q: (int, int), a: (int, int), b: (int, int))
    ensures
        rat_eq(q_diff(q_diff(q, a), q_diff(q, b)), q_diff(b, a)),
{
    let av = q_diff(q, a);
    let bv = q_diff(q, b);
    let sv = q_diff(av, bv);
    let dv = q_diff(b, a);
    lemma_sub_mul(q.0 * a.1, a.0 * q.1, q.1 * b.1);
    assert(av.0 * bv.1 == (q.0 * a.1) * (q.1 * b.1) - (a.0 * q.1) * (q.1 * b.1));
    lemma_sub_mul(q.0 * b.1, b.0 * q.1, q.1 * a.1);
    assert(bv.0 * av.1 == (q.0 * b.1) * (q.1 * a.1) - (b.0 * q.1) * (q.1 * a.1));
    lemma_regroup4(q.0, a.1, q.1, b.1);
    assert((q.0 * a.1) * (q.1 * b.1) == (q.0 * q.1) * (a.1 * b.1));
    lemma_regroup4(q.0, b.1, q.1, a.1);
    assert((q.0 * b.1) * (q.1 * a.1) == (q.0 * q.1) * (b.1 * a.1));
    assert(a.1 * b.1 == b.1 * a.1) by (nonlinear_arith);
    assert(sv.0 == (b.0 * q.1) * (q.1 * a.1) - (a.0 * q.1) * (q.1 * b.1));
    lemma_sub_mul((b.0 * q.1) * (q.1 * a.1), (a.0 * q.1) * (q.1 * b.1), a.1 * b.1);
    assert(sv.0 * (a.1 * b.1) == ((b.0 * q.1) * (q.1 * a.1)) * (a.1 * b.1) - ((a.0 * q.1) * (q.1
        * b.1)) * (a.1 * b.1));
    assert(((b.0 * q.1) * (q.1 * a.1)) * (a.1 * b.1) == (b.0 * a.1) * ((q.1 * a.1) * (q.1 * b.1)))
        by (nonlinear_arith);
    assert(((a.0 * q.1) * (q.1 * b.1)) * (a.1 * b.1) == (a.0 * b.1) * ((q.1 * a.1) * (q.1 * b.1)))
        by (nonlinear_arith);
    lemma_sub_mul(b.0 * a.1, a.0 * b.1, (q.1 * a.1) * (q.1 * b.1));
    assert(sv.0 * dv.1 == dv.0 * sv.1);
}

/// Dividing a product `d * p` back by `d` leaves `p`.
proof fn lemma_q_cancel(d: (int, int), p: (int, int))
    ensures
        rat_eq(q_quot(q_prod(d, p), d), p),
{
    let uv = q_quot(q_prod(d, p), d);
    assert(uv.0 * p.1 == p.0 * uv.1) by (nonlinear_arith)
        requires
            uv.0 == (d.0 * p.0) * d.1,
            uv.1 == (d.1 * p.1) * d.0,
    ;
}

/// A successful recurrence step denotes the exact rational
/// `((q - a) * p1 - (q - b) * p0) / (b - a)`, and only overflow can make
/// it fail when the two abscissas differ.
proof fn lemma_entry_chain(q: (int, int), a: (int, int), b: (int, int), p0: (int, int), p1: (int, int))
    requires
        rat_wf(q),
        rat_wf(a),
        rat_wf(b),
        rat_wf(p0),
        rat_wf(p1),
        !rat_eq(b, a),
    ensures
        nev_entry(q, a, b, p0, p1) is Err ==> nev_entry(q, a, b, p0, p1) == Err::<
            (int, int),
            InterpError,
        >(InterpError::Overflow),
        nev_entry(q, a, b, p0, p1) matches Ok(v) ==> rat_wf(v) && rat_eq(
            v,
            q_quot(q_diff(q_prod(q_diff(q, a), p1), q_prod(q_diff(q, b), p0)), q_diff(b, a)),
        ),
{
    let av = q_diff(q, a);
    let bv = q_diff(q, b);
    let dv = q_diff(b, a);
    if srat_diff(q, a) is None {
        return ;
    }
    let d1 = srat_diff(q, a).unwrap();
    lemma_s_diff_ok(q, a);
    if srat_prod(d1, p1) is None {
        return ;
    }
    let m1 = srat_prod(d1, p1).unwrap();
    lemma_s_prod_ok(d1, p1);
    // m1 denotes (q - a) * p1
    lemma_q_prod_congr(d1, av, p1, p1);
    lemma_den_pos(d1, p1);
    lemma_rat_eq_trans(m1, q_prod(d1, p1), q_prod(av, p1));
    if srat_diff(q, b) is None {
        return ;
    }
    let d2 = srat_diff(q, b).unwrap();
    lemma_s_diff_ok(q, b);
    if srat_prod(d2, p0) is None {
        return ;
    }
    let m2 = srat_prod(d2, p0).unwrap();
    lemma_s_prod_ok(d2, p0);
    lemma_q_prod_congr(d2, bv, p0, p0);
    lemma_den_pos(d2, p0);
    lemma_rat_eq_trans(m2, q_prod(d2, p0), q_prod(bv, p0));
    if srat_diff(m1, m2) is None {
        return ;
    }
    let nn = srat_diff(m1, m2).unwrap();
    lemma_s_diff_ok(m1, m2);
    lemma_q_diff_congr(m1, q_prod(av, p1), m2, q_prod(bv, p0));
    lemma_den_pos(m1, m2);
    lemma_rat_eq_trans(nn, q_diff(m1, m2), q_diff(q_prod(av, p1), q_prod(bv, p0)));
    if srat_diff(b, a) is None {
        return ;
    }
    let dd = srat_diff(b, a).unwrap();
    lemma_s_diff_ok(b, a);
    // the divisor is nonzero: the abscissas differ
    assert(dd.0 != 0) by {
        if dd.0 == 0 {
            assert(dv.0 * dd.1 == 0);
            assert(dv.0 == 0) by (nonlinear_arith)
                requires
                    dv.0 * dd.1 == 0,
                    dd.1 >= 1,
            ;
            assert(rat_eq(b, a));
        }
    }
    if srat_quot(nn, dd) is None {
        return ;
    }
    let v = srat_quot(nn, dd).unwrap();
    lemma_s_quot_ok(nn, dd);
    lemma_q_quot_congr(nn, q_diff(q_prod(av, p1), q_prod(bv, p0)), dd, dv);
    assert(q_quot(nn, dd).1 != 0) by (nonlinear_arith)
        requires
            q_quot(nn, dd).1 == nn.1 * dd.0,
            nn.1 >= 1,
            dd.0 != 0,
    ;
    lemma_rat_eq_trans(
        v,
        q_quot(nn, dd),
        q_quot(q_diff(q_prod(av, p1), q_prod(bv, p0)), dv),
    );
    assert(nev_entry(q, a, b, p0, p1) == Ok::<(int, int), InterpError>(v));
}

/// The recurrence's exact value collapses to an endpoint value at the
/// endpoints' abscissas, and to the shared value when both endpoints agree.
proof fn lemma_entry_cases(
    q: (int, int),
    a: (int, int),
    b: (int, int),
    p0: (int, int),
    p1: (int, int),
    w: (int, int),
)
    requires
        rat_wf(q),
        rat_wf(a),
        rat_wf(b),
        rat_wf(p0),
        rat_wf(p1),
        rat_wf(w),
        !rat_eq(b, a),
    ensures
        nev_entry(q, a, b, p0, p1) is Err ==> nev_entry(q, a, b, p0, p1) == Err::<
            (int, int),
            InterpError,
        >(InterpError::Overflow),
        nev_entry(q, a, b, p0, p1) matches Ok(v) ==> rat_wf(v) && (rat_eq(q, a) && rat_eq(p0, w)
            ==> rat_eq(v, w)) && (rat_eq(q, b) && rat_eq(p1, w) ==> rat_eq(v, w)) && (rat_eq(
            p0,
            w,
        ) && rat_eq(p1, w) ==> rat_eq(v, w)),
{
    lemma_entry_chain(q, a, b, p0, p1);
    if nev_entry(q, a, b, p0, p1) is Err {
        return ;
    }
    let v = nev_entry(q, a, b, p0, p1).unwrap();
    let av = q_diff(q, a);
    let bv = q_diff(q, b);
    let dv = q_diff(b, a);
    let nv = q_diff(q_prod(av, p1), q_prod(bv, p0));
    let tv = q_quot(nv, dv);
    assert(nv.1 >= 1) by (nonlinear_arith)
        requires
            nv.1 == (av.1 * p1.1) * (bv.1 * p0.1),
            av.1 >= 1,
            p1.1 >= 1,
            bv.1 >= 1,
            p0.1 >= 1,
    ;
    assert(dv.0 != 0) by {
        if dv.0 == 0 {
            assert(rat_eq(b, a));
        }
    }
    assert(tv.1 != 0) by (nonlinear_arith)
        requires
            tv.1 == nv.1 * dv.0,
            nv.1 >= 1,
            dv.0 != 0,
    ;

    if rat_eq(q, a) && rat_eq(p0, w) {
        // the (q - a) factor is exactly zero, so the answer collapses to p0
        assert(av.0 == 0);
        let zq = (0int, 1int);
        assert(zq.0 == 0 && zq.1 == 1);
        assert(av.0 * zq.1 == zq.0 * av.1) by (nonlinear_arith)
            requires
                av.0 == 0,
                zq.0 == 0,
        ;
        assert(rat_eq(av, zq));
        lemma_q_prod_congr(av, zq, p1, p1);
        let zp = q_prod(zq, p1);
        assert(zp.0 == 0 && zp.1 == p1.1) by (nonlinear_arith)
            requires
                zp.0 == zq.0 * p1.0,
                zp.1 == zq.1 * p1.1,
                zq.0 == 0,
                zq.1 == 1,
        ;
        assert(zp.0 * zq.1 == zq.0 * zp.1) by (nonlinear_arith)
            requires
                zp.0 == 0,
                zq.0 == 0,
        ;
        assert(rat_eq(zp, zq));
        lemma_rat_eq_trans(q_prod(av, p1), zp, zq);
        lemma_q_diff_congr(q_prod(av, p1), zq, q_prod(bv, p0), q_prod(bv, p0));
        let nz = q_diff(zq, q_prod(bv, p0));
        let bq = q_diff(b, q);
        let p2 = q_prod(bq, p0);
        // the zero head turns the difference into the negated tail
        assert(nz.0 == p2.0) by {
            assert(nz.0 == zq.0 * (bv.1 * p0.1) - (bv.0 * p0.0) * zq.1);
            assert(zq.0 * (bv.1 * p0.1) == 0) by (nonlinear_arith)
                requires
                    zq.0 == 0,
            ;
            assert((bv.0 * p0.0) * zq.1 == bv.0 * p0.0) by (nonlinear_arith)
                requires
                    zq.1 == 1,
            ;
            assert(bq.0 == -bv.0);
            assert((-bv.0) * p0.0 == -(bv.0 * p0.0)) by (nonlinear_arith);
        }
        assert(nz.1 == p2.1) by {
            assert(nz.1 == zq.1 * (bv.1 * p0.1));
            assert(zq.1 * (bv.1 * p0.1) == bv.1 * p0.1) by (nonlinear_arith)
                requires
                    zq.1 == 1,
            ;
            assert(b.1 * q.1 == q.1 * b.1) by (nonlinear_arith);
        }
        assert(nz == p2);
        // and b - q denotes b - a at the knot
        lemma_q_diff_congr(b, b, q, a);
        assert(rat_eq(bq, dv));
        lemma_q_prod_congr(bq, dv, p0, p0);
        assert(p2.1 >= 1) by (nonlinear_arith)
            requires
                p2.1 == (b.1 * q.1) * p0.1,
                b.1 >= 1,
                q.1 >= 1,
                p0.1 >= 1,
        ;
        lemma_rat_eq_trans(nv, nz, q_prod(dv, p0));
        lemma_q_quot_congr(nv, q_prod(dv, p0), dv, dv);
        let uv = q_quot(q_prod(dv, p0), dv);
        lemma_q_cancel(dv, p0);
        assert(uv.1 != 0) by (nonlinear_arith)
            requires
                uv.1 == (dv.1 * p0.1) * dv.0,
                dv.1 >= 1,
                p0.1 >= 1,
                dv.0 != 0,
        ;
        lemma_rat_eq_trans(v, tv, uv);
        lemma_rat_eq_trans(v, uv, p0);
        lemma_rat_eq_trans(v, p0, w);
    }

    if rat_eq(q, b) && rat_eq(p1, w) {
        // the (q - b) factor is exactly zero and the answer is p1
        assert(bv.0 == 0);
        assert(nv.0 == (av.0 * p1.0) * (bv.1 * p0.1)) by {
            assert(bv.0 * p0.0 == 0) by (nonlinear_arith)
                requires
                    bv.0 == 0,
            ;
            assert(nv.0 == (av.0 * p1.0) * (bv.1 * p0.1) - (bv.0 * p0.0) * (av.1 * p1.1));
            assert((bv.0 * p0.0) * (av.1 * p1.1) == 0) by (nonlinear_arith)
                requires
                    bv.0 * p0.0 == 0,
            ;
        }
        // q - a and b - a denote the same rational here
        lemma_q_diff_congr(q, b, a, a);
        assert(rat_eq(av, dv));
        assert(rat_eq(tv, p1)) by {
            lemma_regroup6a(av.0, p1.0, bv.1, p0.1, dv.1, p1.1);
            assert(tv.0 * p1.1 == (av.0 * dv.1) * (p1.0 * (bv.1 * (p0.1 * p1.1))));
            lemma_regroup6b(av.1, p1.1, bv.1, p0.1, dv.0, p1.0);
            assert(p1.0 * tv.1 == (dv.0 * av.1) * (p1.0 * (bv.1 * (p0.1 * p1.1))));
            assert((av.0 * dv.1) * (p1.0 * (bv.1 * (p0.1 * p1.1))) == (dv.0 * av.1) * (p1.0 * (bv.1
                * (p0.1 * p1.1))));
        }
        lemma_rat_eq_trans(v, tv, p1);
        lemma_rat_eq_trans(v, p1, w);
    }

    if rat_eq(p0, w) && rat_eq(p1, w) {
        // both neighbours agree, so the whole combination does
        assert(rat_eq(p1, p0)) by {
            lemma_rat_eq_trans(p1, w, p0);
        }
        // nv denotes (av - bv) * p0
        let sv = q_diff(av, bv);
        lemma_q_prod_congr(av, av, p1, p0);
        lemma_q_diff_congr(q_prod(av, p1), q_prod(av, p0), q_prod(bv, p0), q_prod(bv, p0));
        let nv2 = q_diff(q_prod(av, p0), q_prod(bv, p0));
        assert(nv2.1 != 0) by (nonlinear_arith)
            requires
                nv2.1 == (av.1 * p0.1) * (bv.1 * p0.1),
                av.1 >= 1,
                bv.1 >= 1,
                p0.1 >= 1,
        ;
        // factoring the shared p0 out of the difference
        lemma_q_right_distrib(av, bv, p0);
        assert(rat_eq(nv2, q_prod(sv, p0)));
        // (q - a) - (q - b) denotes b - a
        lemma_q_telescope(q, a, b);
        assert(rat_eq(sv, dv));
        lemma_q_prod_congr(sv, dv, p0, p0);
        assert(sv.1 >= 1) by (nonlinear_arith)
            requires
                sv.1 == (q.1 * a.1) * (q.1 * b.1),
                q.1 >= 1,
                a.1 >= 1,
                b.1 >= 1,
        ;
        lemma_den_pos(sv, p0);
        lemma_den_pos(dv, p0);
        assert(rat_eq(nv, q_prod(dv, p0))) by {
            lemma_rat_eq_trans(nv, nv2, q_prod(sv, p0));
            lemma_rat_eq_trans(nv, q_prod(sv, p0), q_prod(dv, p0));
        }
        lemma_q_quot_congr(nv, q_prod(dv, p0), dv, dv);
        let uv = q_quot(q_prod(dv, p0), dv);
        assert(uv.1 != 0) by (nonlinear_arith)
            requires
                uv.1 == (dv.1 * p0.1) * dv.0,
                dv.1 >= 1,
                p0.1 >= 1,
                dv.0 != 0,
        ;
        // dividing the factored product by b - a leaves p0
        lemma_q_cancel(dv, p0);
        assert(rat_eq(uv, p0));
        lemma_rat_eq_trans(v, tv, uv);
        lemma_rat_eq_trans(v, uv, p0);
        lemma_rat_eq_trans(v, p0, w);
    }
}

/// One tableau level preserves the knot value: entries whose window holds
/// the knot keep denoting the knot's ordinate.
proof fn lemma_nev_row_knot(
    q: (int, int),
    xa: Seq<(int, int)>,
    row: Seq<(int, int)>,
    lev: int,
    k: int,
    kk: int,
    w: (int, int),
)
    requires
        rat_wf(q),
        rat_wf(w),
        wf_vals(xa),
        wf_vals(row),
        distinct_vals(xa),
        row.len() == xa.len(),
        1 <= lev <= xa.len() - 1,
        0 <= k,
        0 <= kk < xa.len(),
        rat_eq(q, xa[kk]),
        forall|idx: int|
            0 <= idx < k && idx <= xa.len() - 1 - lev && idx <= kk <= idx + lev ==> rat_eq(
                #[trigger] row[idx],
                w,
            ),
        forall|idx: int|
            k <= idx <= xa.len() - lev && idx <= kk <= idx + lev - 1 ==> rat_eq(
                #[trigger] row[idx],
                w,
            ),
    ensures
        nev_row(q, xa, row, lev, k) is Err ==> nev_row(q, xa, row, lev, k) == Err::<
            Seq<(int, int)>,
            InterpError,
        >(InterpError::Overflow),
        nev_row(q, xa, row, lev, k) matches Ok(r2) ==> r2.len() == row.len() && wf_vals(r2) && (
        forall|idx: int|
            0 <= idx <= xa.len() - 1 - lev && idx <= kk <= idx + lev ==> rat_eq(
                #[trigger] r2[idx],
                w,
            )),
    decreases xa.len() - k,
{
    let n = xa.len() as int;
    if k > n - 1 - lev {
        // nothing left to update
    } else {
        lemma_entry_cases(q, xa[k], xa[k + lev], row[k], row[k + 1], w);
        match nev_entry(q, xa[k], xa[k + lev], row[k], row[k + 1]) {
            Err(e) => {},
            Ok(v) => {
                if k <= kk <= k + lev {
                    if kk == k {
                        assert(rat_eq(row[k], w));
                        assert(rat_eq(v, w));
                    } else if kk == k + lev {
                        assert(rat_eq(row[k + 1], w));
                        assert(rat_eq(v, w));
                    } else {
                        assert(rat_eq(row[k], w));
                        assert(rat_eq(row[k + 1], w));
                        assert(rat_eq(v, w));
                    }
                }
                lemma_nev_row_knot(q, xa, row.update(k, v), lev, k + 1, kk, w);
            },
        }
    }
}

/// The remaining tableau levels preserve the knot value down to the final
/// single entry.
proof fn lemma_nev_levels_knot(
    q: (int, int),
    xa: Seq<(int, int)>,
    row: Seq<(int, int)>,
    lev: int,
    kk: int,
    w: (int, int),
)
    requires
        rat_wf(q),
        rat_wf(w),
        wf_vals(xa),
        wf_vals(row),
        distinct_vals(xa),
        row.len() == xa.len(),
        1 <= lev <= xa.len(),
        0 <= kk < xa.len(),
        rat_eq(q, xa[kk]),
        forall|idx: int|
            0 <= idx <= xa.len() - lev && idx <= kk <= idx + lev - 1 ==> rat_eq(
                #[trigger] row[idx],
                w,
            ),
    ensures
        nev_levels(q, xa, row, lev) is Err ==> nev_levels(q, xa, row, lev) == Err::<
            Seq<(int, int)>,
            InterpError,
        >(InterpError::Overflow),
        nev_levels(q, xa, row, lev) matches Ok(fin) ==> fin.len() == xa.len() && rat_eq(
            fin[0],
            w,
        ),
    decreases xa.len() - lev,
{
    let n = xa.len() as int;
    if lev > n - 1 {
        assert(rat_eq(row[0], w));
    } else {
        lemma_nev_row_knot(q, xa, row, lev, 0, kk, w);
        match nev_row(q, xa, row, lev, 0) {
            Err(e) => {},
            Ok(r2) => {
                lemma_nev_levels_knot(q, xa, r2, lev + 1, kk, w);
            },
        }
    }
}

/// Neville interpolation reproduces its samples: at a query denoting the
/// abscissa `xa[kk]` of a table with pairwise distinct abscissas, the only
/// possible failure is overflow, and a successful value denotes `ya[kk]`
/// exactly.
pub proof fn lemma_neville_reproduces_knot(
    q: (int, int),
    xa: Seq<(int, int)>,
    ya: Seq<(int, int)>,
    kk: int,
)
    requires
        rat_wf(q),
        wf_vals(xa),
        wf_vals(ya),
        distinct_vals(xa),
        xa.len() == ya.len(),
        1 <= xa.len(),
        0 <= kk < xa.len(),
        rat_eq(q, xa[kk]),
    ensures
        nev_value(q, xa, ya) is Err ==> nev_value(q, xa, ya) == Err::<(int, int), InterpError>(
            InterpError::Overflow,
        ),
        nev_value(q, xa, ya) matches Ok(v) ==> rat_eq(v, ya[kk]),
{
    lemma_nev_levels_knot(q, xa, ya, 1, kk, ya[kk]);
}


/// A polynomial interpolator of full degree (window as wide as the table)
/// reproduces the table's own values: at any knot the only possible
/// failure is overflow, and a successful value denotes the knot's
/// ordinate exactly.
pub proof fn lemma_poly_reproduces_knot(p: Poly1D, kk: int)
    requires
        p.valid(),
        p.m as int == p.x@.len() - 1,
        0 <= kk < p.x@.len(),
    ensures
        p.model(p.x@[kk]@) is Err ==> p.model(p.x@[kk]@) == Err::<(int, int), InterpError>(
            InterpError::Overflow,
        ),
        p.model(p.x@[kk]@) matches Ok(v) ==> rat_eq(v, p.y@[kk]@),
{
    let t = p.x@;
    let n = t.len() as int;
    let m = p.m as int;
    let q = t[kk]@;
    let asc = p.search.ascend;
    // with a full-width window, clamping pins the window start at zero
    assert(spec_locate(t, asc, m, q) == 0);
    assert(t.subrange(0, n) =~= t);
    assert(p.y@.subrange(0, n) =~= p.y@);
    let xv = rvals(t);
    let yv = rvals(p.y@);
    assert(wf_vals(xv)) by {
        assert(forall|i: int| 0 <= i < n ==> #[trigger] xv[i] == t[i]@);
    }
    assert(wf_vals(yv)) by {
        assert(forall|i: int| 0 <= i < n ==> #[trigger] yv[i] == p.y@[i]@);
    }
    // strict monotonicity separates every pair of abscissas
    assert(distinct_vals(xv)) by {
        assert forall|i: int, j: int| 0 <= i < j < n implies !rat_eq(
            #[trigger] xv[i],
            #[trigger] xv[j],
        ) by {
            lemma_monotone_pairs(t, asc, i, j);
            assert(lt_dir(asc, t[i]@, t[j]@));
        }
    }
    lemma_neville_reproduces_knot(q, xv, yv, kk);
    assert(xv[kk] == q);
    assert(yv[kk] == p.y@[kk]@);
}

} // verus!
