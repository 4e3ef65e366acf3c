//! Cubic spline interpolation with natural or clamped boundary conditions.
//!
//! Construction solves the tridiagonal second-derivative system by the usual
//! forward elimination and back substitution, then certifies the solution
//! against the system's defining equations: a constructed spline provably
//! carries second derivatives that satisfy them exactly.

use vstd::prelude::*;

use crate::errors::InterpError;
use crate::interpolator::Interpolate1D;
use crate::polynomial_coefficients::{res_tab_view, zero_pairs};
use crate::rat::{
    diff_tracked, prod_tracked, q_diff, q_prod, q_quot, q_sum, quot_tracked, rat_eq, rat_wf,
    res_view, rvals, s_diff, s_prod, s_quot, s_sum, srat_diff, srat_prod, srat_quot, srat_sum,
    sum_tracked, Rat,
};
use crate::search::{searchable, spec_locate, wf_table, BisectHunt1D, Search};

verus! {

/// The value a boundary slope option denotes, if any, is well formed.
pub open spec fn opt_rat_wf(o: Option<Rat>) -> bool {
    match o {
        Some(d) => rat_wf(d@),
        None => true,
    }
}

/// The second-derivative equation coupling three interior points `i-1`,
/// `i`, `i+1` of a cubic spline:
/// `(x[i]-x[i-1])/6 * z[i-1] + (x[i+1]-x[i-1])/3 * z[i] + (x[i+1]-x[i])/6 * z[i+1]`
/// equals the divided-difference jump
/// `(y[i+1]-y[i])/(x[i+1]-x[i]) - (y[i]-y[i-1])/(x[i]-x[i-1])`.
pub open spec fn spline_interior_eq(x: Seq<Rat>, y: Seq<Rat>, z: Seq<Rat>, i: int) -> bool {
    rat_eq(
        q_sum(
            q_sum(
                q_prod(q_quot(q_diff(x[i]@, x[i - 1]@), (6int, 1int)), z[i - 1]@),
                q_prod(q_quot(q_diff(x[i + 1]@, x[i - 1]@), (3int, 1int)), z[i]@),
            ),
            q_prod(q_quot(q_diff(x[i + 1]@, x[i]@), (6int, 1int)), z[i + 1]@),
        ),
        q_diff(
            q_quot(q_diff(y[i + 1]@, y[i]@), q_diff(x[i + 1]@, x[i]@)),
            q_quot(q_diff(y[i]@, y[i - 1]@), q_diff(x[i]@, x[i - 1]@)),
        ),
    )
}

/// The clamped boundary equation at the low end, for prescribed slope `d`:
/// `(x[1]-x[0])/3 * z[0] + (x[1]-x[0])/6 * z[1]`
/// equals `(y[1]-y[0])/(x[1]-x[0]) - d`.
pub open spec fn spline_low_clamped_eq(x: Seq<Rat>, y: Seq<Rat>, z: Seq<Rat>, d: (int, int)) -> bool {
    rat_eq(
        q_sum(
            q_prod(q_quot(q_diff(x[1]@, x[0]@), (3int, 1int)), z[0]@),
            q_prod(q_quot(q_diff(x[1]@, x[0]@), (6int, 1int)), z[1]@),
        ),
        q_diff(q_quot(q_diff(y[1]@, y[0]@), q_diff(x[1]@, x[0]@)), d),
    )
}

/// The clamped boundary equation at the high end, for prescribed slope `d`:
/// `(x[n-1]-x[n-2])/6 * z[n-2] + (x[n-1]-x[n-2])/3 * z[n-1]`
/// equals `d - (y[n-1]-y[n-2])/(x[n-1]-x[n-2])`.
pub open spec fn spline_high_clamped_eq(x: Seq<Rat>, y: Seq<Rat>, z: Seq<Rat>, d: (int, int)) -> bool {
    let n = x.len() as int;
    rat_eq(
        q_sum(
            q_prod(q_quot(q_diff(x[n - 1]@, x[n - 2]@), (6int, 1int)), z[n - 2]@),
            q_prod(q_quot(q_diff(x[n - 1]@, x[n - 2]@), (3int, 1int)), z[n - 1]@),
        ),
        q_diff(d, q_quot(q_diff(y[n - 1]@, y[n - 2]@), q_diff(x[n - 1]@, x[n - 2]@))),
    )
}

/// `z` solves the cubic-spline second-derivative system for the tables
/// `x`, `y` under the given boundary conditions: every interior coupling
/// equation holds, and each end holds its natural (zero curvature) or
/// clamped (prescribed slope) equation.
pub open spec fn spline_system(
    x: Seq<Rat>,
    y: Seq<Rat>,
    yp1: Option<Rat>,
    ypn: Option<Rat>,
    z: Seq<Rat>,
) -> bool {
    let n = x.len() as int;
    &&& z.len() == n
    &&& (forall|i: int| 1 <= i < n - 1 ==> #[trigger] spline_interior_eq(x, y, z, i))
    &&& (match yp1 {
        None => rat_eq(z[0]@, (0int, 1int)),
        Some(d) => spline_low_clamped_eq(x, y, z, d@),
    })
    &&& (match ypn {
        None => rat_eq(z[n - 1]@, (0int, 1int)),
        Some(d) => spline_high_clamped_eq(x, y, z, d@),
    })
}


// ---------------------------------------------------------------------------
// The exact model of the construction: the same seeds, sweeps and
// certification over unbounded pairs, with every checked operation's
// failure point mirrored. `Spline1D::new` returns exactly what this model
// computes.
// ---------------------------------------------------------------------------

/// The value a boundary slope option denotes.
pub open spec fn orat(o: Option<Rat>) -> Option<(int, int)> {
    match o {
        Some(d) => Some(d@),
        None => None,
    }
}

/// Checked difference with the evaluators' error taxonomy.
pub open spec fn m_diff(a: (int, int), b: (int, int)) -> Result<(int, int), InterpError> {
    match srat_diff(a, b) {
        Some(v) => Ok(v),
        None => Err(InterpError::Overflow),
    }
}

/// Checked sum with the evaluators' error taxonomy.
pub open spec fn m_sum(a: (int, int), b: (int, int)) -> Result<(int, int), InterpError> {
    match srat_sum(a, b) {
        Some(v) => Ok(v),
        None => Err(InterpError::Overflow),
    }
}

/// Checked product with the evaluators' error taxonomy.
pub open spec fn m_prod(a: (int, int), b: (int, int)) -> Result<(int, int), InterpError> {
    match srat_prod(a, b) {
        Some(v) => Ok(v),
        None => Err(InterpError::Overflow),
    }
}

/// Checked quotient with the evaluators' error taxonomy.
pub open spec fn m_quot(a: (int, int), b: (int, int)) -> Result<(int, int), InterpError> {
    if b.0 == 0 {
        Err(InterpError::DegenerateInterval)
    } else {
        match srat_quot(a, b) {
            Some(v) => Ok(v),
            None => Err(InterpError::Overflow),
        }
    }
}

/// The clamped low-end seed, exactly as computed: `(-1/2, u0)`.
pub open spec fn sw_low(x: Seq<(int, int)>, y: Seq<(int, int)>, d: (int, int)) -> Result<
    ((int, int), (int, int)),
    InterpError,
> {
    match m_diff(x[1], x[0]) {
        Err(e) => Err(e),
        Ok(h0) => match m_diff(y[1], y[0]) {
            Err(e) => Err(e),
            Ok(dd) => match m_quot(dd, h0) {
                Err(e) => Err(e),
                Ok(s0) => match m_diff(s0, d) {
                    Err(e) => Err(e),
                    Ok(g) => match m_quot((3int, 1int), h0) {
                        Err(e) => Err(e),
                        Ok(t) => match m_prod(t, g) {
                            Err(e) => Err(e),
                            Ok(u0) => match m_quot((-1int, 1int), (2int, 1int)) {
                                Err(e) => Err(e),
                                Ok(nh) => Ok((nh, u0)),
                            },
                        },
                    },
                },
            },
        },
    }
}

/// The clamped high-end seed, exactly as computed: `(1/2, un)`.
pub open spec fn sw_high(x: Seq<(int, int)>, y: Seq<(int, int)>, d: (int, int)) -> Result<
    ((int, int), (int, int)),
    InterpError,
> {
    let n = x.len() as int;
    match m_diff(x[n - 1], x[n - 2]) {
        Err(e) => Err(e),
        Ok(hn) => match m_diff(y[n - 1], y[n - 2]) {
            Err(e) => Err(e),
            Ok(dd) => match m_quot(dd, hn) {
                Err(e) => Err(e),
                Ok(sn) => match m_diff(d, sn) {
                    Err(e) => Err(e),
                    Ok(g) => match m_quot((3int, 1int), hn) {
                        Err(e) => Err(e),
                        Ok(t) => match m_prod(t, g) {
                            Err(e) => Err(e),
                            Ok(un) => match m_quot((1int, 1int), (2int, 1int)) {
                                Err(e) => Err(e),
                                Ok(qn) => Ok((qn, un)),
                            },
                        },
                    },
                },
            },
        },
    }
}

/// One forward-elimination step, exactly as computed.
pub open spec fn sw_step(
    x: Seq<(int, int)>,
    y: Seq<(int, int)>,
    zp: (int, int),
    up: (int, int),
    i: int,
) -> Result<((int, int), (int, int)), InterpError> {
    match m_diff(x[i], x[i - 1]) {
        Err(e) => Err(e),
        Ok(hl) => match m_diff(x[i + 1], x[i - 1]) {
            Err(e) => Err(e),
            Ok(hw) => match m_diff(x[i + 1], x[i]) {
                Err(e) => Err(e),
                Ok(hr) => match m_quot(hl, hw) {
                    Err(e) => Err(e),
                    Ok(sig) => match m_prod(sig, zp) {
                        Err(e) => Err(e),
                        Ok(sz) => match m_sum(sz, (2int, 1int)) {
                            Err(e) => Err(e),
                            Ok(p) => match m_diff(sig, (1int, 1int)) {
                                Err(e) => Err(e),
                                Ok(sm1) => match m_quot(sm1, p) {
                                    Err(e) => Err(e),
                                    Ok(zi) => match m_diff(y[i + 1], y[i]) {
                                        Err(e) => Err(e),
                                        Ok(dr) => match m_quot(dr, hr) {
                                            Err(e) => Err(e),
                                            Ok(sr) => match m_diff(y[i], y[i - 1]) {
                                                Err(e) => Err(e),
                                                Ok(dl) => match m_quot(dl, hl) {
                                                    Err(e) => Err(e),
                                                    Ok(sl) => match m_diff(sr, sl) {
                                                        Err(e) => Err(e),
                                                        Ok(jump) => match m_prod(
                                                            (6int, 1int),
                                                            jump,
                                                        ) {
                                                            Err(e) => Err(e),
                                                            Ok(j6) => match m_quot(j6, hw) {
                                                                Err(e) => Err(e),
                                                                Ok(jw) => match m_prod(sig, up) {
                                                                    Err(e) => Err(e),
                                                                    Ok(su) => match m_diff(
                                                                        jw,
                                                                        su,
                                                                    ) {
                                                                        Err(e) => Err(e),
                                                                        Ok(num) => match m_quot(
                                                                            num,
                                                                            p,
                                                                        ) {
                                                                            Err(e) => Err(e),
                                                                            Ok(ui) => Ok(
                                                                                (zi, ui),
                                                                            ),
                                                                        },
                                                                    },
                                                                },
                                                            },
                                                        },
                                                    },
                                                },
                                            },
                                        },
                                    },
                                },
                            },
                        },
                    },
                },
            },
        },
    }
}

/// The forward elimination over the interior points, from point `i` on.
pub open spec fn sw_forward(
    x: Seq<(int, int)>,
    y: Seq<(int, int)>,
    z: Seq<(int, int)>,
    u: Seq<(int, int)>,
    i: int,
    n: int,
) -> Result<(Seq<(int, int)>, Seq<(int, int)>), InterpError>
    decreases n - i,
{
    if i < 1 || i >= n - 1 {
        Ok((z, u))
    } else {
        match sw_step(x, y, z[i - 1], u[i - 1], i) {
            Err(e) => Err(e),
            Ok(p) => sw_forward(x, y, z.update(i, p.0), u.update(i, p.1), i + 1, n),
        }
    }
}

/// The back substitution, from entry `k` down to zero.
pub open spec fn sw_back(z: Seq<(int, int)>, u: Seq<(int, int)>, k: int) -> Result<
    Seq<(int, int)>,
    InterpError,
>
    decreases k,
{
    if k < 1 {
        Ok(z)
    } else {
        match m_prod(z[k - 1], z[k]) {
            Err(e) => Err(e),
            Ok(t) => match m_sum(t, u[k - 1]) {
                Err(e) => Err(e),
                Ok(v) => sw_back(z.update(k - 1, v), u, k - 1),
            },
        }
    }
}

/// The exact outcome of the second-derivative sweep.
pub open spec fn sweep_model(
    x: Seq<(int, int)>,
    y: Seq<(int, int)>,
    yp1: Option<(int, int)>,
    ypn: Option<(int, int)>,
) -> Result<Seq<(int, int)>, InterpError> {
    let n = x.len() as int;
    let seeded = match yp1 {
        None => Ok((zero_pairs(n), zero_pairs(n))),
        Some(d) => match sw_low(x, y, d) {
            Err(e) => Err(e),
            Ok(p) => Ok((zero_pairs(n).update(0, p.0), zero_pairs(n).update(0, p.1))),
        },
    };
    match seeded {
        Err(e) => Err(e),
        Ok(zu) => match sw_forward(x, y, zu.0, zu.1, 1, n) {
            Err(e) => Err(e),
            Ok(zu2) => sweep_model_tail(x, y, ypn, zu2.0, zu2.1),
        },
    }
}

/// What remains of the sweep once the forward elimination is done: the
/// high-end seed, the last entry, and the back substitution.
pub open spec fn sweep_model_tail(
    x: Seq<(int, int)>,
    y: Seq<(int, int)>,
    ypn: Option<(int, int)>,
    z: Seq<(int, int)>,
    u: Seq<(int, int)>,
) -> Result<Seq<(int, int)>, InterpError> {
    let n = x.len() as int;
    let high = match ypn {
        None => Ok(((0int, 1int), (0int, 1int))),
        Some(d) => sw_high(x, y, d),
    };
    match high {
        Err(e) => Err(e),
        Ok(qu) => match m_prod(qu.0, u[n - 2]) {
            Err(e) => Err(e),
            Ok(t1) => match m_diff(qu.1, t1) {
                Err(e) => Err(e),
                Ok(num) => match m_prod(qu.0, z[n - 2]) {
                    Err(e) => Err(e),
                    Ok(t2) => match m_sum(t2, (1int, 1int)) {
                        Err(e) => Err(e),
                        Ok(den) => match m_quot(num, den) {
                            Err(e) => Err(e),
                            Ok(zn) => sw_back(z.update(n - 1, zn), u, n - 1),
                        },
                    },
                },
            },
        },
    }
}

/// The view of a seed-pair result.
pub open spec fn pair_res_view(r: Result<(Rat, Rat), InterpError>) -> Result<
    ((int, int), (int, int)),
    InterpError,
> {
    match r {
        Ok(p) => Ok((p.0@, p.1@)),
        Err(e) => Err(e),
    }
}

/// The clamped low-end seed of the sweep: `z0 = -1/2` and
/// `u0 = (3/(x1-x0)) * ((y1-y0)/(x1-x0) - d)`, exactly as `sw_low` says.
fn sweep_low_seed(x: &Vec<Rat>, y: &Vec<Rat>, d: Rat) -> (r: Result<(Rat, Rat), InterpError>)
    requires
        wf_table(x@),
        wf_table(y@),
        x@.len() == y@.len(),
        2 <= x@.len(),
        rat_wf(d@),
    ensures
        pair_res_view(r) == sw_low(rvals(x@), rvals(y@), d@),
        r matches Ok(p) ==> rat_wf(p.0@) && rat_wf(p.1@),
        r matches Err(e) ==> e == InterpError::Overflow || e == InterpError::DegenerateInterval,
{
    let h0: Rat = match x[1].minus_r(x[0]) {
        Ok(v) => v,
        Err(e) => {
            return Err(e);
        },
    };
    let dd: Rat = match y[1].minus_r(y[0]) {
        Ok(v) => v,
        Err(e) => {
            return Err(e);
        },
    };
    let s0: Rat = match dd.over_r(h0) {
        Ok(v) => v,
        Err(e) => {
            return Err(e);
        },
    };
    let g: Rat = match s0.minus_r(d) {
        Ok(v) => v,
        Err(e) => {
            return Err(e);
        },
    };
    let t: Rat = match Rat::from_int(3).over_r(h0) {
        Ok(v) => v,
        Err(e) => {
            return Err(e);
        },
    };
    let u0: Rat = match t.times_r(g) {
        Ok(v) => v,
        Err(e) => {
            return Err(e);
        },
    };
    let neg_half: Rat = match Rat::from_int(-1).over_r(Rat::from_int(2)) {
        Ok(v) => v,
        Err(e) => {
            return Err(e);
        },
    };
    Ok((neg_half, u0))
}

/// The clamped high-end seed of the sweep: `qn = 1/2` and
/// `un = (3/(x[n-1]-x[n-2])) * (d - (y[n-1]-y[n-2])/(x[n-1]-x[n-2]))`,
/// exactly as `sw_high` says.
fn sweep_high_seed(x: &Vec<Rat>, y: &Vec<Rat>, d: Rat) -> (r: Result<(Rat, Rat), InterpError>)
    requires
        wf_table(x@),
        wf_table(y@),
        x@.len() == y@.len(),
        2 <= x@.len(),
        rat_wf(d@),
    ensures
        pair_res_view(r) == sw_high(rvals(x@), rvals(y@), d@),
        r matches Ok(p) ==> rat_wf(p.0@) && rat_wf(p.1@),
        r matches Err(e) ==> e == InterpError::Overflow || e == InterpError::DegenerateInterval,
{
    let n: usize = x.len();
    let hn: Rat = match x[n - 1].minus_r(x[n - 2]) {
        Ok(v) => v,
        Err(e) => {
            return Err(e);
        },
    };
    let dd: Rat = match y[n - 1].minus_r(y[n - 2]) {
        Ok(v) => v,
        Err(e) => {
            return Err(e);
        },
    };
    let sn: Rat = match dd.over_r(hn) {
        Ok(v) => v,
        Err(e) => {
            return Err(e);
        },
    };
    let g: Rat = match d.minus_r(sn) {
        Ok(v) => v,
        Err(e) => {
            return Err(e);
        },
    };
    let t: Rat = match Rat::from_int(3).over_r(hn) {
        Ok(v) => v,
        Err(e) => {
            return Err(e);
        },
    };
    let un: Rat = match t.times_r(g) {
        Ok(v) => v,
        Err(e) => {
            return Err(e);
        },
    };
    let qn: Rat = match Rat::one().over_r(Rat::from_int(2)) {
        Ok(v) => v,
        Err(e) => {
            return Err(e);
        },
    };
    Ok((qn, un))
}

/// One forward-elimination step at interior point `i`, from the previous
/// point's eliminated values: returns the new `(z[i], u[i])`, exactly as
/// `sw_step` says.
fn sweep_forward_step(x: &Vec<Rat>, y: &Vec<Rat>, zp: Rat, up: Rat, i: usize) -> (r: Result<
    (Rat, Rat),
    InterpError,
>)
    requires
        wf_table(x@),
        wf_table(y@),
        x@.len() == y@.len(),
        1 <= i,
        i + 1 < x@.len(),
        rat_wf(zp@),
        rat_wf(up@),
    ensures
        pair_res_view(r) == sw_step(rvals(x@), rvals(y@), zp@, up@, i as int),
        r matches Ok(p) ==> rat_wf(p.0@) && rat_wf(p.1@),
        r matches Err(e) ==> e == InterpError::Overflow || e == InterpError::DegenerateInterval,
{
    let n: usize = x.len();
    proof {
        assert(i + 1 < n);
    }
    let hl: Rat = match x[i].minus_r(x[i - 1]) {
        Ok(v) => v,
        Err(e) => {
            return Err(e);
        },
    };
    let hw: Rat = match x[i + 1].minus_r(x[i - 1]) {
        Ok(v) => v,
        Err(e) => {
            return Err(e);
        },
    };
    let hr: Rat = match x[i + 1].minus_r(x[i]) {
        Ok(v) => v,
        Err(e) => {
            return Err(e);
        },
    };
    let sig: Rat = match hl.over_r(hw) {
        Ok(v) => v,
        Err(e) => {
            return Err(e);
        },
    };
    let sz: Rat = match sig.times_r(zp) {
        Ok(v) => v,
        Err(e) => {
            return Err(e);
        },
    };
    let p: Rat = match sz.plus_r(Rat::from_int(2)) {
        Ok(v) => v,
        Err(e) => {
            return Err(e);
        },
    };
    let sm1: Rat = match sig.minus_r(Rat::one()) {
        Ok(v) => v,
        Err(e) => {
            return Err(e);
        },
    };
    let zi: Rat = match sm1.over_r(p) {
        Ok(v) => v,
        Err(e) => {
            return Err(e);
        },
    };
    let dr: Rat = match y[i + 1].minus_r(y[i]) {
        Ok(v) => v,
        Err(e) => {
            return Err(e);
        },
    };
    let sr: Rat = match dr.over_r(hr) {
        Ok(v) => v,
        Err(e) => {
            return Err(e);
        },
    };
    let dl: Rat = match y[i].minus_r(y[i - 1]) {
        Ok(v) => v,
        Err(e) => {
            return Err(e);
        },
    };
    let sl: Rat = match dl.over_r(hl) {
        Ok(v) => v,
        Err(e) => {
            return Err(e);
        },
    };
    let jump: Rat = match sr.minus_r(sl) {
        Ok(v) => v,
        Err(e) => {
            return Err(e);
        },
    };
    let j6: Rat = match Rat::from_int(6).times_r(jump) {
        Ok(v) => v,
        Err(e) => {
            return Err(e);
        },
    };
    let jw: Rat = match j6.over_r(hw) {
        Ok(v) => v,
        Err(e) => {
            return Err(e);
        },
    };
    let su: Rat = match sig.times_r(up) {
        Ok(v) => v,
        Err(e) => {
            return Err(e);
        },
    };
    let num: Rat = match jw.minus_r(su) {
        Ok(v) => v,
        Err(e) => {
            return Err(e);
        },
    };
    let ui: Rat = match num.over_r(p) {
        Ok(v) => v,
        Err(e) => {
            return Err(e);
        },
    };
    Ok((zi, ui))
}

/// Solves the tridiagonal system by forward elimination and back
/// substitution, returning exactly what `sweep_model` computes; the caller
/// certifies the values against `spline_system`.
#[verifier::rlimit(100)]
#[verifier::loop_isolation(false)]
fn sweep_y2(x: &Vec<Rat>, y: &Vec<Rat>, yp1: &Option<Rat>, ypn: &Option<Rat>) -> (r: Result<
    Vec<Rat>,
    InterpError,
>)
    requires
        wf_table(x@),
        wf_table(y@),
        x@.len() == y@.len(),
        2 <= x@.len(),
        opt_rat_wf(*yp1),
        opt_rat_wf(*ypn),
    ensures
        res_tab_view(r) == sweep_model(rvals(x@), rvals(y@), orat(*yp1), orat(*ypn)),
        r matches Ok(z) ==> z@.len() == x@.len() && wf_table(z@),
        r matches Err(e) ==> e == InterpError::Overflow || e == InterpError::DegenerateInterval,
{
    let n: usize = x.len();
    let ghost xv = rvals(x@);
    let ghost yv = rvals(y@);
    let ghost target = sweep_model(xv, yv, orat(*yp1), orat(*ypn));
    let mut z: Vec<Rat> = crate::polynomial_coefficients::zeros_vec(n);
    let mut u: Vec<Rat> = crate::polynomial_coefficients::zeros_vec(n);

    // boundary condition at the low end
    match *yp1 {
        None => {},
        Some(d) => {
            let seed: (Rat, Rat) = match sweep_low_seed(x, y, d) {
                Ok(p) => p,
                Err(e) => {
                    return Err(e);
                },
            };
            z.set(0, seed.0);
            u.set(0, seed.1);
            proof {
                assert(rvals(z@) =~= zero_pairs(n as int).update(0, seed.0@));
                assert(rvals(u@) =~= zero_pairs(n as int).update(0, seed.1@));
            }
        },
    }
    proof {
        assert(target == (match sw_forward(xv, yv, rvals(z@), rvals(u@), 1, n as int) {
            Err(e) => Err(e),
            Ok(zu2) => sweep_model_tail(xv, yv, orat(*ypn), zu2.0, zu2.1),
        }));
    }

    // forward elimination over the interior points
    let mut i: usize = 1;
    while i < n - 1
        invariant
            1 <= i,
            n >= 3 ==> i <= n - 1,
            z@.len() == n,
            u@.len() == n,
            wf_table(z@),
            wf_table(u@),
            target == (match sw_forward(xv, yv, rvals(z@), rvals(u@), i as int, n as int) {
                Err(e) => Err(e),
                Ok(zu2) => sweep_model_tail(xv, yv, orat(*ypn), zu2.0, zu2.1),
            }),
        decreases n - 1 - i,
    {
        let ghost z_pre = rvals(z@);
        let ghost u_pre = rvals(u@);
        let step: (Rat, Rat) = match sweep_forward_step(x, y, z[i - 1], u[i - 1], i) {
            Ok(p) => p,
            Err(e) => {
                return Err(e);
            },
        };
        z.set(i, step.0);
        u.set(i, step.1);
        proof {
            assert(rvals(z@) =~= z_pre.update(i as int, step.0@));
            assert(rvals(u@) =~= u_pre.update(i as int, step.1@));
        }
        i = i + 1;
    }

    let ghost z_f = rvals(z@);
    let ghost u_f = rvals(u@);
    proof {
        assert(target == sweep_model_tail(xv, yv, orat(*ypn), z_f, u_f));
    }

    // boundary condition at the high end
    let mut qn: Rat = Rat::zero();
    let mut un: Rat = Rat::zero();
    match *ypn {
        None => {},
        Some(d) => {
            let seed: (Rat, Rat) = match sweep_high_seed(x, y, d) {
                Ok(p) => p,
                Err(e) => {
                    return Err(e);
                },
            };
            qn = seed.0;
            un = seed.1;
        },
    }
    let qu: Rat = match qn.times_r(u[n - 2]) {
        Ok(v) => v,
        Err(e) => {
            return Err(e);
        },
    };
    let num: Rat = match un.minus_r(qu) {
        Ok(v) => v,
        Err(e) => {
            return Err(e);
        },
    };
    let qz: Rat = match qn.times_r(z[n - 2]) {
        Ok(v) => v,
        Err(e) => {
            return Err(e);
        },
    };
    let den: Rat = match qz.plus_r(Rat::one()) {
        Ok(v) => v,
        Err(e) => {
            return Err(e);
        },
    };
    let zn: Rat = match num.over_r(den) {
        Ok(v) => v,
        Err(e) => {
            return Err(e);
        },
    };
    z.set(n - 1, zn);
    proof {
        assert(rvals(z@) =~= z_f.update(n as int - 1, zn@));
        assert(target == sw_back(rvals(z@), rvals(u@), n as int - 1));
    }

    // back substitution
    let mut k: usize = n - 1;
    while k >= 1
        invariant
            0 <= k <= n - 1,
            z@.len() == n,
            u@.len() == n,
            wf_table(z@),
            wf_table(u@),
            target == sw_back(rvals(z@), rvals(u@), k as int),
        decreases k,
    {
        let ghost z_pre = rvals(z@);
        let k1: usize = k - 1;
        let t: Rat = match z[k1].times_r(z[k]) {
            Ok(v) => v,
            Err(e) => {
                return Err(e);
            },
        };
        let v: Rat = match t.plus_r(u[k1]) {
            Ok(v) => v,
            Err(e) => {
                return Err(e);
            },
        };
        z.set(k1, v);
        proof {
            assert(rvals(z@) =~= z_pre.update(k1 as int, v@));
        }
        k = k1;
    }
    Ok(z)
}


/// The exact outcome of one interior certification check, with the checked
/// arithmetic's failure points (a failed or unrepresentable check is false).
pub open spec fn ci_model(
    x: Seq<(int, int)>,
    y: Seq<(int, int)>,
    z: Seq<(int, int)>,
    i: int,
) -> bool {
    match srat_diff(x[i], x[i - 1]) {
        None => false,
        Some(hl) => match srat_diff(x[i + 1], x[i - 1]) {
            None => false,
            Some(hw) => match srat_diff(x[i + 1], x[i]) {
                None => false,
                Some(hr) => match srat_quot(hl, (6int, 1int)) {
                    None => false,
                    Some(t1) => match srat_prod(t1, z[i - 1]) {
                        None => false,
                        Some(w1) => match srat_quot(hw, (3int, 1int)) {
                            None => false,
                            Some(t2) => match srat_prod(t2, z[i]) {
                                None => false,
                                Some(w2) => match srat_quot(hr, (6int, 1int)) {
                                    None => false,
                                    Some(t3) => match srat_prod(t3, z[i + 1]) {
                                        None => false,
                                        Some(w3) => match srat_sum(w1, w2) {
                                            None => false,
                                            Some(s12) => match srat_sum(s12, w3) {
                                                None => false,
                                                Some(lhs) => match srat_diff(y[i + 1], y[i]) {
                                                    None => false,
                                                    Some(dr) => match srat_quot(dr, hr) {
                                                        None => false,
                                                        Some(sr) => match srat_diff(
                                                            y[i],
                                                            y[i - 1],
                                                        ) {
                                                            None => false,
                                                            Some(dl) => match srat_quot(dl, hl) {
                                                                None => false,
                                                                Some(sl) => match srat_diff(
                                                                    sr,
                                                                    sl,
                                                                ) {
                                                                    None => false,
                                                                    Some(rhs) => rat_eq(lhs, rhs),
                                                                },
                                                            },
                                                        },
                                                    },
                                                },
                                            },
                                        },
                                    },
                                },
                            },
                        },
                    },
                },
            },
        },
    }
}

/// The exact outcome of one boundary certification check:
/// `ha/ca * za + hb/cbv * zb` against `rhs`.
pub open spec fn cb_model(
    ha: (int, int),
    ca: (int, int),
    za: (int, int),
    hb: (int, int),
    cbv: (int, int),
    zb: (int, int),
    rhs: (int, int),
) -> bool {
    match srat_quot(ha, ca) {
        None => false,
        Some(t1) => match srat_prod(t1, za) {
            None => false,
            Some(w1) => match srat_quot(hb, cbv) {
                None => false,
                Some(t2) => match srat_prod(t2, zb) {
                    None => false,
                    Some(w2) => match srat_sum(w1, w2) {
                        None => false,
                        Some(lhs) => rat_eq(lhs, rhs),
                    },
                },
            },
        },
    }
}

/// Every interior certification check from point `i` on.
pub open spec fn ci_all(
    x: Seq<(int, int)>,
    y: Seq<(int, int)>,
    z: Seq<(int, int)>,
    i: int,
    n: int,
) -> bool
    decreases n - i,
{
    if i < 1 || i >= n - 1 {
        true
    } else {
        ci_model(x, y, z, i) && ci_all(x, y, z, i + 1, n)
    }
}

/// The exact outcome of the low-end certification check.
pub open spec fn low_cert_model(
    x: Seq<(int, int)>,
    y: Seq<(int, int)>,
    y1: Option<(int, int)>,
    z: Seq<(int, int)>,
) -> bool {
    match y1 {
        None => z[0].0 == 0,
        Some(d) => match srat_diff(x[1], x[0]) {
            None => false,
            Some(h0) => match srat_diff(y[1], y[0]) {
                None => false,
                Some(dd) => match srat_quot(dd, h0) {
                    None => false,
                    Some(s0) => match srat_diff(s0, d) {
                        None => false,
                        Some(rhs) => cb_model(
                            h0,
                            (3int, 1int),
                            z[0],
                            h0,
                            (6int, 1int),
                            z[1],
                            rhs,
                        ),
                    },
                },
            },
        },
    }
}

/// The exact outcome of the high-end certification check.
pub open spec fn high_cert_model(
    x: Seq<(int, int)>,
    y: Seq<(int, int)>,
    yn: Option<(int, int)>,
    z: Seq<(int, int)>,
) -> bool {
    let n = x.len() as int;
    match yn {
        None => z[n - 1].0 == 0,
        Some(d) => match srat_diff(x[n - 1], x[n - 2]) {
            None => false,
            Some(hn) => match srat_diff(y[n - 1], y[n - 2]) {
                None => false,
                Some(dd) => match srat_quot(dd, hn) {
                    None => false,
                    Some(sn) => match srat_diff(d, sn) {
                        None => false,
                        Some(rhs) => cb_model(
                            hn,
                            (6int, 1int),
                            z[n - 2],
                            hn,
                            (3int, 1int),
                            z[n - 1],
                            rhs,
                        ),
                    },
                },
            },
        },
    }
}

/// The exact outcome of the whole certification.
pub open spec fn certify_model(
    x: Seq<(int, int)>,
    y: Seq<(int, int)>,
    y1: Option<(int, int)>,
    yn: Option<(int, int)>,
    z: Seq<(int, int)>,
) -> bool {
    &&& ci_all(x, y, z, 1, x.len() as int)
    &&& low_cert_model(x, y, y1, z)
    &&& high_cert_model(x, y, yn, z)
}

/// Checks one interior coupling equation exactly.
fn check_interior(x: &Vec<Rat>, y: &Vec<Rat>, z: &Vec<Rat>, i: usize) -> (r: bool)
    requires
        wf_table(x@),
        wf_table(y@),
        wf_table(z@),
        x@.len() == y@.len(),
        z@.len() == x@.len(),
        1 <= i,
        i + 1 < x@.len(),
    ensures
        r == ci_model(rvals(x@), rvals(y@), rvals(z@), i as int),
        r ==> spline_interior_eq(x@, y@, z@, i as int),
{
    let n: usize = x.len();
    proof {
        assert(i + 1 < n);
    }
    let six: Rat = Rat::from_int(6);
    let three: Rat = Rat::from_int(3);
    let hl: Rat = match diff_tracked(x[i], x[i - 1], Ghost(x@[i as int]@), Ghost(x@[i as int - 1]@)) {
        Some(v) => v,
        None => {
            return false;
        },
    };
    let ghost hl_p = q_diff(x@[i as int]@, x@[i as int - 1]@);
    let hw: Rat = match diff_tracked(
        x[i + 1],
        x[i - 1],
        Ghost(x@[i as int + 1]@),
        Ghost(x@[i as int - 1]@),
    ) {
        Some(v) => v,
        None => {
            return false;
        },
    };
    let ghost hw_p = q_diff(x@[i as int + 1]@, x@[i as int - 1]@);
    let hr: Rat = match diff_tracked(x[i + 1], x[i], Ghost(x@[i as int + 1]@), Ghost(x@[i as int]@)) {
        Some(v) => v,
        None => {
            return false;
        },
    };
    let ghost hr_p = q_diff(x@[i as int + 1]@, x@[i as int]@);
    let t1: Rat = match quot_tracked(hl, six, Ghost(hl_p), Ghost((6int, 1int))) {
        Some(v) => v,
        None => {
            return false;
        },
    };
    let w1: Rat = match prod_tracked(t1, z[i - 1], Ghost(q_quot(hl_p, (6int, 1int))), Ghost(
        z@[i as int - 1]@,
    )) {
        Some(v) => v,
        None => {
            return false;
        },
    };
    let t2: Rat = match quot_tracked(hw, three, Ghost(hw_p), Ghost((3int, 1int))) {
        Some(v) => v,
        None => {
            return false;
        },
    };
    let w2: Rat = match prod_tracked(t2, z[i], Ghost(q_quot(hw_p, (3int, 1int))), Ghost(
        z@[i as int]@,
    )) {
        Some(v) => v,
        None => {
            return false;
        },
    };
    let t3: Rat = match quot_tracked(hr, six, Ghost(hr_p), Ghost((6int, 1int))) {
        Some(v) => v,
        None => {
            return false;
        },
    };
    let w3: Rat = match prod_tracked(t3, z[i + 1], Ghost(q_quot(hr_p, (6int, 1int))), Ghost(
        z@[i as int + 1]@,
    )) {
        Some(v) => v,
        None => {
            return false;
        },
    };
    let ghost w1_p = q_prod(q_quot(hl_p, (6int, 1int)), z@[i as int - 1]@);
    let ghost w2_p = q_prod(q_quot(hw_p, (3int, 1int)), z@[i as int]@);
    let ghost w3_p = q_prod(q_quot(hr_p, (6int, 1int)), z@[i as int + 1]@);
    let s12: Rat = match sum_tracked(w1, w2, Ghost(w1_p), Ghost(w2_p)) {
        Some(v) => v,
        None => {
            return false;
        },
    };
    let lhs: Rat = match sum_tracked(s12, w3, Ghost(q_sum(w1_p, w2_p)), Ghost(w3_p)) {
        Some(v) => v,
        None => {
            return false;
        },
    };
    let dr: Rat = match diff_tracked(y[i + 1], y[i], Ghost(y@[i as int + 1]@), Ghost(y@[i as int]@))
        {
        Some(v) => v,
        None => {
            return false;
        },
    };
    let ghost dr_p = q_diff(y@[i as int + 1]@, y@[i as int]@);
    let sr: Rat = match quot_tracked(dr, hr, Ghost(dr_p), Ghost(hr_p)) {
        Some(v) => v,
        None => {
            return false;
        },
    };
    let dl: Rat = match diff_tracked(y[i], y[i - 1], Ghost(y@[i as int]@), Ghost(y@[i as int - 1]@))
        {
        Some(v) => v,
        None => {
            return false;
        },
    };
    let ghost dl_p = q_diff(y@[i as int]@, y@[i as int - 1]@);
    let sl: Rat = match quot_tracked(dl, hl, Ghost(dl_p), Ghost(hl_p)) {
        Some(v) => v,
        None => {
            return false;
        },
    };
    let rhs: Rat = match diff_tracked(sr, sl, Ghost(q_quot(dr_p, hr_p)), Ghost(q_quot(dl_p, hl_p)))
        {
        Some(v) => v,
        None => {
            return false;
        },
    };
    let ok: bool = lhs.eq_val(rhs);
    proof {
        if ok {
            let lhs_p = q_sum(q_sum(w1_p, w2_p), w3_p);
            let rhs_p = q_diff(q_quot(dr_p, hr_p), q_quot(dl_p, hl_p));
            crate::rat::lemma_rat_eq_trans(lhs_p, lhs@, rhs@);
            crate::rat::lemma_rat_eq_trans(lhs_p, rhs@, rhs_p);
        }
    }
    ok
}

/// Checks one clamped boundary equation exactly: `ha/ca * za + hb/cb * zb`
/// against `rhs`, all given as tracked values.
fn check_boundary(
    ha: Rat,
    ca: Rat,
    za: Rat,
    hb: Rat,
    cb: Rat,
    zb: Rat,
    rhs: Rat,
    pha: Ghost<(int, int)>,
    pca: Ghost<(int, int)>,
    pza: Ghost<(int, int)>,
    phb: Ghost<(int, int)>,
    pcb: Ghost<(int, int)>,
    pzb: Ghost<(int, int)>,
    prhs: Ghost<(int, int)>,
) -> (r: bool)
    requires
        rat_wf(ha@),
        rat_wf(ca@),
        rat_wf(za@),
        rat_wf(hb@),
        rat_wf(cb@),
        rat_wf(zb@),
        rat_wf(rhs@),
        rat_eq(ha@, pha@),
        rat_eq(ca@, pca@),
        rat_eq(za@, pza@),
        rat_eq(hb@, phb@),
        rat_eq(cb@, pcb@),
        rat_eq(zb@, pzb@),
        rat_eq(rhs@, prhs@),
    ensures
        r == cb_model(ha@, ca@, za@, hb@, cb@, zb@, rhs@),
        r ==> rat_eq(
            q_sum(q_prod(q_quot(pha@, pca@), pza@), q_prod(q_quot(phb@, pcb@), pzb@)),
            prhs@,
        ),
{
    let t1: Rat = match quot_tracked(ha, ca, Ghost(pha@), Ghost(pca@)) {
        Some(v) => v,
        None => {
            return false;
        },
    };
    let w1: Rat = match prod_tracked(t1, za, Ghost(q_quot(pha@, pca@)), Ghost(pza@)) {
        Some(v) => v,
        None => {
            return false;
        },
    };
    let t2: Rat = match quot_tracked(hb, cb, Ghost(phb@), Ghost(pcb@)) {
        Some(v) => v,
        None => {
            return false;
        },
    };
    let w2: Rat = match prod_tracked(t2, zb, Ghost(q_quot(phb@, pcb@)), Ghost(pzb@)) {
        Some(v) => v,
        None => {
            return false;
        },
    };
    let lhs: Rat = match sum_tracked(w1, w2, Ghost(q_prod(q_quot(pha@, pca@), pza@)), Ghost(q_prod(
        q_quot(phb@, pcb@),
        pzb@,
    ))) {
        Some(v) => v,
        None => {
            return false;
        },
    };
    let ok: bool = lhs.eq_val(rhs);
    proof {
        if ok {
            let lhs_p = q_sum(q_prod(q_quot(pha@, pca@), pza@), q_prod(q_quot(phb@, pcb@), pzb@));
            crate::rat::lemma_rat_eq_trans(lhs_p, lhs@, rhs@);
            crate::rat::lemma_rat_eq_trans(lhs_p, rhs@, prhs@);
        }
    }
    ok
}

/// Certifies a candidate second-derivative table against the whole system,
/// returning exactly what `certify_model` computes.
#[verifier::loop_isolation(false)]
#[verifier::rlimit(100)]
fn certify_y2(x: &Vec<Rat>, y: &Vec<Rat>, yp1: &Option<Rat>, ypn: &Option<Rat>, z: &Vec<Rat>) -> (r:
    bool)
    requires
        wf_table(x@),
        wf_table(y@),
        wf_table(z@),
        x@.len() == y@.len(),
        z@.len() == x@.len(),
        2 <= x@.len(),
        opt_rat_wf(*yp1),
        opt_rat_wf(*ypn),
    ensures
        r == certify_model(rvals(x@), rvals(y@), orat(*yp1), orat(*ypn), rvals(z@)),
        r ==> spline_system(x@, y@, *yp1, *ypn, z@),
{
    let n: usize = x.len();
    let ghost xv = rvals(x@);
    let ghost yv = rvals(y@);
    let ghost zv = rvals(z@);
    let mut i: usize = 1;
    while i < n - 1
        invariant
            1 <= i,
            n >= 3 ==> i <= n - 1,
            n == x@.len(),
            n == y@.len(),
            z@.len() == n,
            2 <= n,
            wf_table(x@),
            wf_table(y@),
            wf_table(z@),
            ci_all(xv, yv, zv, 1, n as int) == ci_all(xv, yv, zv, i as int, n as int),
            forall|k: int| 1 <= k < i ==> #[trigger] spline_interior_eq(x@, y@, z@, k),
        decreases n - 1 - i,
    {
        if !check_interior(x, y, z, i) {
            proof {
                assert(!ci_all(xv, yv, zv, i as int, n as int));
                assert(!certify_model(xv, yv, orat(*yp1), orat(*ypn), zv));
            }
            return false;
        }
        i = i + 1;
    }
    proof {
        assert(ci_all(xv, yv, zv, 1, n as int));
    }
    let ghost lowm = low_cert_model(xv, yv, orat(*yp1), zv);
    let ghost highm = high_cert_model(xv, yv, orat(*ypn), zv);
    let low_ok: bool = match *yp1 {
        None => {
            let zz: bool = z[0].is_zero();
            proof {
                if zz {
                    assert(z@[0]@.0 == 0);
                    assert(z@[0]@.0 * 1int == 0int * z@[0]@.1) by (nonlinear_arith)
                        requires
                            z@[0]@.0 == 0,
                    ;
                }
            }
            zz
        },
        Some(d) => {
            let h0: Rat = match diff_tracked(x[1], x[0], Ghost(x@[1]@), Ghost(x@[0]@)) {
                Some(v) => v,
                None => {
                    return false;
                },
            };
            let ghost h0_p = q_diff(x@[1]@, x@[0]@);
            let dd: Rat = match diff_tracked(y[1], y[0], Ghost(y@[1]@), Ghost(y@[0]@)) {
                Some(v) => v,
                None => {
                    return false;
                },
            };
            let ghost dd_p = q_diff(y@[1]@, y@[0]@);
            let s0: Rat = match quot_tracked(dd, h0, Ghost(dd_p), Ghost(h0_p)) {
                Some(v) => v,
                None => {
                    return false;
                },
            };
            let rhs: Rat = match diff_tracked(s0, d, Ghost(q_quot(dd_p, h0_p)), Ghost(d@)) {
                Some(v) => v,
                None => {
                    return false;
                },
            };
            let three: Rat = Rat::from_int(3);
            let six: Rat = Rat::from_int(6);
            check_boundary(
                h0,
                three,
                z[0],
                h0,
                six,
                z[1],
                rhs,
                Ghost(h0_p),
                Ghost((3int, 1int)),
                Ghost(z@[0]@),
                Ghost(h0_p),
                Ghost((6int, 1int)),
                Ghost(z@[1]@),
                Ghost(q_diff(q_quot(dd_p, h0_p), d@)),
            )
        },
    };
    if !low_ok {
        return false;
    }
    proof {
        match *yp1 {
            None => {
                assert(rat_eq(z@[0]@, (0int, 1int)));
            },
            Some(d) => {
                assert(spline_low_clamped_eq(x@, y@, z@, d@));
            },
        }
    }
    let high_ok: bool = match *ypn {
        None => {
            let zz: bool = z[n - 1].is_zero();
            proof {
                if zz {
                    assert(z@[n as int - 1]@.0 == 0);
                    assert(z@[n as int - 1]@.0 * 1int == 0int * z@[n as int - 1]@.1)
                        by (nonlinear_arith)
                        requires
                            z@[n as int - 1]@.0 == 0,
                    ;
                }
            }
            zz
        },
        Some(d) => {
            let hn: Rat = match diff_tracked(
                x[n - 1],
                x[n - 2],
                Ghost(x@[n as int - 1]@),
                Ghost(x@[n as int - 2]@),
            ) {
                Some(v) => v,
                None => {
                    return false;
                },
            };
            let ghost hn_p = q_diff(x@[n as int - 1]@, x@[n as int - 2]@);
            let dd: Rat = match diff_tracked(
                y[n - 1],
                y[n - 2],
                Ghost(y@[n as int - 1]@),
                Ghost(y@[n as int - 2]@),
            ) {
                Some(v) => v,
                None => {
                    return false;
                },
            };
            let ghost dd_p = q_diff(y@[n as int - 1]@, y@[n as int - 2]@);
            let sn: Rat = match quot_tracked(dd, hn, Ghost(dd_p), Ghost(hn_p)) {
                Some(v) => v,
                None => {
                    return false;
                },
            };
            let rhs: Rat = match diff_tracked(d, sn, Ghost(d@), Ghost(q_quot(dd_p, hn_p))) {
                Some(v) => v,
                None => {
                    return false;
                },
            };
            let three: Rat = Rat::from_int(3);
            let six: Rat = Rat::from_int(6);
            check_boundary(
                hn,
                six,
                z[n - 2],
                hn,
                three,
                z[n - 1],
                rhs,
                Ghost(hn_p),
                Ghost((6int, 1int)),
                Ghost(z@[n as int - 2]@),
                Ghost(hn_p),
                Ghost((3int, 1int)),
                Ghost(z@[n as int - 1]@),
                Ghost(q_diff(d@, q_quot(dd_p, hn_p))),
            )
        },
    };
    proof {
        if high_ok {
            assert(forall|k: int|
                1 <= k < x@.len() - 1 ==> #[trigger] spline_interior_eq(x@, y@, z@, k));
            match *ypn {
                None => {
                    assert(rat_eq(z@[x@.len() - 1]@, (0int, 1int)));
                },
                Some(d) => {
                    assert(spline_high_clamped_eq(x@, y@, z@, d@));
                },
            }
        }
    }
    high_ok
}

/// The checked value of the cubic segment formula over the pair
/// `(x0, x1)` with curvatures `(z0, z1)`:
/// `a*y0 + b*y1 + ((a^3 - a)*z0 + (b^3 - b)*z1) * h^2 / 6` with
/// `h = x1 - x0`, `a = (x1 - q)/h`, `b = (q - x0)/h`.
pub open spec fn spline_formula(
    q: (int, int),
    x0: (int, int),
    x1: (int, int),
    y0: (int, int),
    y1: (int, int),
    z0: (int, int),
    z1: (int, int),
) -> Result<(int, int), InterpError> {
    let h = s_diff(Ok(x1), Ok(x0));
    let a = s_quot(s_diff(Ok(x1), Ok(q)), h);
    let b = s_quot(s_diff(Ok(q), Ok(x0)), h);
    let cube_a = s_diff(s_prod(s_prod(a, a), a), a);
    let cube_b = s_diff(s_prod(s_prod(b, b), b), b);
    let curv = s_sum(s_prod(cube_a, Ok(z0)), s_prod(cube_b, Ok(z1)));
    let h2 = s_prod(h, h);
    let tail = s_quot(s_prod(curv, h2), Ok((6int, 1int)));
    s_sum(s_sum(s_prod(a, Ok(y0)), s_prod(b, Ok(y1))), tail)
}

/// One-dimensional cubic spline interpolator.
pub struct Spline1D {
    /// The abscissa table, strictly monotone.
    pub x: Vec<Rat>,
    /// The ordinate table, same length.
    pub y: Vec<Rat>,
    /// The certified second-derivative table.
    pub y2: Vec<Rat>,
    /// The bracket locator, bound to `x` with a two-point evaluation pair.
    pub search: BisectHunt1D,
}

impl Spline1D {
    /// Builds a cubic spline over the tables `x`, `y`; `yp1` and `ypn`
    /// prescribe the end slopes, each `None` meaning a natural (zero
    /// curvature) end.
    ///
    /// Rejects with `InvalidTable` exactly the tables a two-point locator
    /// rejects; on any other table the outcome equals the exact sweep and
    /// certification models, so success too is a function of the inputs
    /// alone. On success the stored second derivatives provably satisfy
    /// the spline system for the given boundary conditions.
    pub fn new(x: Vec<Rat>, y: Vec<Rat>, yp1: Option<Rat>, ypn: Option<Rat>) -> (r: Result<
        Spline1D,
        InterpError,
    >)
        requires
            wf_table(x@),
            wf_table(y@),
            opt_rat_wf(yp1),
            opt_rat_wf(ypn),
        ensures
            r == Err::<Spline1D, InterpError>(InterpError::InvalidTable) <==> !(x@.len()
                == y@.len() && searchable(x@, 2)),
            x@.len() == y@.len() && searchable(x@, 2) ==> (match sweep_model(
                rvals(x@),
                rvals(y@),
                orat(yp1),
                orat(ypn),
            ) {
                Err(e) => r == Err::<Spline1D, InterpError>(e),
                Ok(zv) => (if certify_model(rvals(x@), rvals(y@), orat(yp1), orat(ypn), zv) {
                    r matches Ok(sp) && rvals(sp.y2@) == zv
                } else {
                    r == Err::<Spline1D, InterpError>(InterpError::SingularMatrix)
                }),
            }),
            r matches Ok(sp) ==> sp.valid() && sp.x@ == x@ && sp.y@ == y@ && sp.search.m == 2
                && sp.search.corr == false && sp.search.i_save is None && spline_system(
                x@,
                y@,
                yp1,
                ypn,
                sp.y2@,
            ),
    {
        if x.len() != y.len() {
            return Err(InterpError::InvalidTable);
        }
        let search = match BisectHunt1D::new(&x, 2) {
            Ok(s) => s,
            Err(e) => {
                return Err(e);
            },
        };
        let y2 = match sweep_y2(&x, &y, &yp1, &ypn) {
            Ok(z) => z,
            Err(e) => {
                return Err(e);
            },
        };
        if !certify_y2(&x, &y, &yp1, &ypn, &y2) {
            return Err(InterpError::SingularMatrix);
        }
        Ok(Spline1D { x, y, y2, search })
    }

    /// Evaluates the cubic segment formula over the adjacent pair starting
    /// at `i`.
    fn interpolate_at(&self, q: Rat, i: usize) -> (r: Result<Rat, InterpError>)
        requires
            self.valid(),
            rat_wf(q@),
            i + 1 < self.x@.len(),
        ensures
            res_view(r) == spline_formula(
                q@,
                self.x@[i as int]@,
                self.x@[i as int + 1]@,
                self.y@[i as int]@,
                self.y@[i as int + 1]@,
                self.y2@[i as int]@,
                self.y2@[i as int + 1]@,
            ),
            r is Ok ==> rat_wf(r.unwrap()@),
    {
        let x0: Rat = self.x[i];
        let x1: Rat = self.x[i + 1];
        let y0: Rat = self.y[i];
        let y1: Rat = self.y[i + 1];
        let z0: Rat = self.y2[i];
        let z1: Rat = self.y2[i + 1];
        let h: Rat = match x1.minus_r(x0) {
            Ok(v) => v,
            Err(e) => {
                return Err(e);
            },
        };
        let an: Rat = match x1.minus_r(q) {
            Ok(v) => v,
            Err(e) => {
                return Err(e);
            },
        };
        let a: Rat = match an.over_r(h) {
            Ok(v) => v,
            Err(e) => {
                return Err(e);
            },
        };
        let bn: Rat = match q.minus_r(x0) {
            Ok(v) => v,
            Err(e) => {
                return Err(e);
            },
        };
        let b: Rat = match bn.over_r(h) {
            Ok(v) => v,
            Err(e) => {
                return Err(e);
            },
        };
        let aa: Rat = match a.times_r(a) {
            Ok(v) => v,
            Err(e) => {
                return Err(e);
            },
        };
        let aaa: Rat = match aa.times_r(a) {
            Ok(v) => v,
            Err(e) => {
                return Err(e);
            },
        };
        let ca: Rat = match aaa.minus_r(a) {
            Ok(v) => v,
            Err(e) => {
                return Err(e);
            },
        };
        let bb: Rat = match b.times_r(b) {
            Ok(v) => v,
            Err(e) => {
                return Err(e);
            },
        };
        let bbb: Rat = match bb.times_r(b) {
            Ok(v) => v,
            Err(e) => {
                return Err(e);
            },
        };
        let cb: Rat = match bbb.minus_r(b) {
            Ok(v) => v,
            Err(e) => {
                return Err(e);
            },
        };
        let w0: Rat = match ca.times_r(z0) {
            Ok(v) => v,
            Err(e) => {
                return Err(e);
            },
        };
        let w1: Rat = match cb.times_r(z1) {
            Ok(v) => v,
            Err(e) => {
                return Err(e);
            },
        };
        let curv: Rat = match w0.plus_r(w1) {
            Ok(v) => v,
            Err(e) => {
                return Err(e);
            },
        };
        let h2: Rat = match h.times_r(h) {
            Ok(v) => v,
            Err(e) => {
                return Err(e);
            },
        };
        let ch: Rat = match curv.times_r(h2) {
            Ok(v) => v,
            Err(e) => {
                return Err(e);
            },
        };
        let six: Rat = Rat::from_int(6);
        let tail: Rat = match ch.over_r(six) {
            Ok(v) => v,
            Err(e) => {
                return Err(e);
            },
        };
        let p0: Rat = match a.times_r(y0) {
            Ok(v) => v,
            Err(e) => {
                return Err(e);
            },
        };
        let p1: Rat = match b.times_r(y1) {
            Ok(v) => v,
            Err(e) => {
                return Err(e);
            },
        };
        let lin: Rat = match p0.plus_r(p1) {
            Ok(v) => v,
            Err(e) => {
                return Err(e);
            },
        };
        match lin.plus_r(tail) {
            Ok(v) => Ok(v),
            Err(e) => Err(e),
        }
    }
}

impl Interpolate1D for Spline1D {
    open spec fn valid(&self) -> bool {
        &&& self.search.valid_for(self.x@)
        &&& self.search.m == 2
        &&& self.y@.len() == self.x@.len()
        &&& self.y2@.len() == self.x@.len()
        &&& wf_table(self.y@)
        &&& wf_table(self.y2@)
    }

    open spec fn tables(&self) -> Seq<Seq<Rat>> {
        seq![self.x@, self.y@, self.y2@]
    }

    open spec fn model(&self, q: (int, int)) -> Result<(int, int), InterpError> {
        let t = self.x@;
        let j = spec_locate(t, self.search.ascend, 2, q);
        spline_formula(q, t[j]@, t[j + 1]@, self.y@[j]@, self.y@[j + 1]@, self.y2@[j]@, self.y2@[j
            + 1]@)
    }

    fn interpolate(&mut self, x: Rat) -> (r: Result<Rat, InterpError>) {
        let i: usize = self.search.locate(&self.x, x);
        self.interpolate_at(x, i)
    }
}

} // verus!
