//! Power-basis coefficients of the interpolating polynomial, by two
//! methods: `polcoe` builds the symmetric-function table of the abscissas
//! and accumulates each sample's contribution by Horner sweeps; `polcof`
//! repeatedly evaluates at zero by Neville's algorithm and deflates the
//! table. Over exact rationals the two agree wherever both succeed.

use vstd::math::abs;
use vstd::prelude::*;

use crate::errors::InterpError;
use crate::polynomial::{neville, nev_value};
use crate::rat::{
    copy_window, rat_lt, rat_wf, rvals, s_diff, s_prod, s_quot, s_sum, Rat,
};
use crate::search::wf_table;

verus! {

/// A table of zeros.
pub open spec fn zero_pairs(n: int) -> Seq<(int, int)> {
    Seq::new(n as nat, |i: int| (0int, 1int))
}

/// The view of a table-or-error result.
pub open spec fn res_tab_view(r: Result<Vec<Rat>, InterpError>) -> Result<
    Seq<(int, int)>,
    InterpError,
> {
    match r {
        Ok(v) => Ok(rvals(v@)),
        Err(e) => Err(e),
    }
}

/// A table of `n` zeros.
pub(crate) fn zeros_vec(n: usize) -> (r: Vec<Rat>)
    ensures
        r@.len() == n,
        rvals(r@) == zero_pairs(n as int),
        wf_table(r@),
{
    let mut r: Vec<Rat> = Vec::new();
    let mut i: usize = 0;
    while i < n
        invariant
            0 <= i <= n,
            r@.len() == i,
            forall|k: int| 0 <= k < i ==> #[trigger] r@[k]@ == (0int, 1int),
        decreases n - i,
    {
        r.push(Rat::zero());
        i = i + 1;
    }
    proof {
        assert(rvals(r@) =~= zero_pairs(n as int));
    }
    r
}

// ---------------------------------------------------------------------------
// The symmetric-function method, `polcoe`.
// ---------------------------------------------------------------------------

/// The inner sweep of the symmetric-function table: for `j` from its start
/// to `hi - 1`, `s[j] -= xi * s[j+1]`.
pub open spec fn pc_stab_inner(
    xi: (int, int),
    s: Seq<(int, int)>,
    j: int,
    hi: int,
) -> Result<Seq<(int, int)>, InterpError>
    decreases hi - j,
{
    if j < 0 || j >= hi || hi >= s.len() {
        Ok(s)
    } else {
        match s_diff(Ok(s[j]), s_prod(Ok(xi), Ok(s[j + 1]))) {
            Err(e) => Err(e),
            Ok(v) => pc_stab_inner(xi, s.update(j, v), j + 1, hi),
        }
    }
}

/// One Horner sweep for the derivative-like weight `phi`: for `k` from its
/// start down to one, `phi = k * s[k] + xj * phi`.
pub open spec fn pc_phi(
    xj: (int, int),
    s: Seq<(int, int)>,
    phi: (int, int),
    k: int,
) -> Result<(int, int), InterpError>
    decreases k,
{
    if k < 1 || k >= s.len() {
        Ok(phi)
    } else {
        match s_sum(s_prod(Ok((k, 1int)), Ok(s[k])), s_prod(Ok(xj), Ok(phi))) {
            Err(e) => Err(e),
            Ok(v) => pc_phi(xj, s, v, k - 1),
        }
    }
}

/// The accumulation sweep of one sample: for `k` from its start down to
/// zero, `coef[k] += b * ff; b = s[k] + xj * b`.
pub open spec fn pc_acc(
    xj: (int, int),
    ff: (int, int),
    s: Seq<(int, int)>,
    coef: Seq<(int, int)>,
    b: (int, int),
    k: int,
) -> Result<(Seq<(int, int)>, (int, int)), InterpError>
    decreases k + 1,
{
    if k < 0 || k >= s.len() || s.len() != coef.len() {
        Ok((coef, b))
    } else {
        match s_sum(Ok(coef[k]), s_prod(Ok(b), Ok(ff))) {
            Err(e) => Err(e),
            Ok(c) => match s_sum(Ok(s[k]), s_prod(Ok(xj), Ok(b))) {
                Err(e) => Err(e),
                Ok(b2) => pc_acc(xj, ff, s, coef.update(k, c), b2, k - 1),
            },
        }
    }
}

/// The remaining samples' contributions, from sample `j` on.
pub open spec fn pc_samples(
    x: Seq<(int, int)>,
    y: Seq<(int, int)>,
    s: Seq<(int, int)>,
    coef: Seq<(int, int)>,
    j: int,
) -> Result<Seq<(int, int)>, InterpError>
    decreases x.len() - j, 3int,
{
    let n = x.len() as int;
    if j < 0 || j >= n {
        Ok(coef)
    } else {
        pc_sample_tail(x, y, s, coef, j, pc_phi(x[j], s, (n, 1int), n - 1))
    }
}

/// The rest of sample `j` once its weight `phi` is known: divide the sample
/// value by it and accumulate.
pub open spec fn pc_sample_tail(
    x: Seq<(int, int)>,
    y: Seq<(int, int)>,
    s: Seq<(int, int)>,
    coef: Seq<(int, int)>,
    j: int,
    phires: Result<(int, int), InterpError>,
) -> Result<Seq<(int, int)>, InterpError>
    decreases x.len() - j, 2int,
{
    let n = x.len() as int;
    match phires {
        Err(e) => Err(e),
        Ok(phi) => match s_quot(Ok(y[j]), Ok(phi)) {
            Err(e) => Err(e),
            Ok(ff) => pc_acc_tail(x, y, s, j, pc_acc(x[j], ff, s, coef, (1int, 1int), n - 1)),
        },
    }
}

/// The rest of the computation once sample `j`'s accumulation is done.
pub open spec fn pc_acc_tail(
    x: Seq<(int, int)>,
    y: Seq<(int, int)>,
    s: Seq<(int, int)>,
    j: int,
    accres: Result<(Seq<(int, int)>, (int, int)), InterpError>,
) -> Result<Seq<(int, int)>, InterpError>
    decreases x.len() - j, 1int,
{
    match accres {
        Err(e) => Err(e),
        Ok(p) => pc_samples_next(x, y, s, p.0, j),
    }
}

/// Step to the next sample.
pub open spec fn pc_samples_next(
    x: Seq<(int, int)>,
    y: Seq<(int, int)>,
    s: Seq<(int, int)>,
    coef: Seq<(int, int)>,
    j: int,
) -> Result<Seq<(int, int)>, InterpError>
    decreases x.len() - j, 0int,
{
    if j < 0 || j >= x.len() - 1 {
        Ok(coef)
    } else {
        pc_samples(x, y, s, coef, j + 1)
    }
}

/// The remaining rounds of the symmetric-function table build, from round
/// `i` on, followed by the per-sample accumulation.
pub open spec fn pc_build(
    x: Seq<(int, int)>,
    y: Seq<(int, int)>,
    s: Seq<(int, int)>,
    i: int,
) -> Result<Seq<(int, int)>, InterpError>
    decreases x.len() - i,
{
    let n = x.len() as int;
    if i < 1 || i >= n {
        pc_samples(x, y, s, zero_pairs(n), 0)
    } else {
        match pc_stab_inner(x[i], s, n - 1 - i, n - 1) {
            Err(e) => Err(e),
            Ok(s2) => match s_diff(Ok(s2[n - 1]), Ok(x[i])) {
                Err(e) => Err(e),
                Ok(v) => pc_build(x, y, s2.update(n - 1, v), i + 1),
            },
        }
    }
}

/// The checked outcome of `polcoe` on the tables `x`, `y`.
pub open spec fn polcoe_model(x: Seq<(int, int)>, y: Seq<(int, int)>) -> Result<
    Seq<(int, int)>,
    InterpError,
> {
    let n = x.len() as int;
    let s0 = zero_pairs(n).update(n - 1, (-x[0].0, x[0].1));
    pc_build(x, y, s0, 1)
}

/// The power-basis coefficients of the polynomial through the points
/// `(x[i], y[i])`, by the symmetric-function method: `coef[k]` multiplies
/// `q^k`.
///
/// Reports `DegenerateInterval` when a sample's weight comes out zero
/// (coincident abscissas) and `Overflow` when an exact intermediate leaves
/// the representable range, exactly as `polcoe_model` describes.
pub fn polcoe(x: &Vec<Rat>, y: &Vec<Rat>) -> (r: Result<Vec<Rat>, InterpError>)
    requires
        wf_table(x@),
        wf_table(y@),
        x@.len() == y@.len(),
        1 <= x@.len(),
        x@.len() <= i64::MAX as int,
    ensures
        res_tab_view(r) == polcoe_model(rvals(x@), rvals(y@)),
        r matches Ok(c) ==> wf_table(c@) && c@.len() == x@.len(),
{
    let n: usize = x.len();
    let ghost xv = rvals(x@);
    let ghost yv = rvals(y@);
    let mut s: Vec<Rat> = zeros_vec(n);
    s.set(n - 1, x[0].negate());
    proof {
        assert(rvals(s@) =~= zero_pairs(n as int).update(n as int - 1, (-xv[0].0, xv[0].1)));
    }
    let ghost target = pc_build(xv, yv, rvals(s@), 1);
    assert(target == polcoe_model(rvals(x@), rvals(y@)));

    // build the symmetric-function table
    let mut i: usize = 1;
    while i < n
        invariant
            1 <= i <= n,
            n == x@.len(),
            n == y@.len(),
            1 <= n <= i64::MAX as int,
            s@.len() == n,
            wf_table(x@),
            wf_table(y@),
            wf_table(s@),
            xv == rvals(x@),
            yv == rvals(y@),
            target == polcoe_model(xv, yv),
            target == pc_build(xv, yv, rvals(s@), i as int),
        decreases n - i,
    {
        let xi: Rat = x[i];
        let mut j: usize = n - 1 - i;
        while j < n - 1
            invariant
                1 <= i < n,
                n - 1 - i <= j <= n - 1,
                n == x@.len(),
                n == y@.len(),
                1 <= n <= i64::MAX as int,
                s@.len() == n,
                wf_table(x@),
                wf_table(y@),
                wf_table(s@),
                xv == rvals(x@),
                yv == rvals(y@),
                xi == x@[i as int],
                target == polcoe_model(xv, yv),
                target == (match pc_stab_inner(xv[i as int], rvals(s@), j as int, n as int - 1) {
                    Err(e) => Err(e),
                    Ok(s2) => match s_diff(Ok(s2[n as int - 1]), Ok(xv[i as int])) {
                        Err(e) => Err(e),
                        Ok(v) => pc_build(xv, yv, s2.update(n as int - 1, v), i as int + 1),
                    },
                }),
            decreases n - 1 - j,
        {
            let ghost s_pre = rvals(s@);
            let t: Rat = match xi.times_r(s[j + 1]) {
                Ok(v) => v,
                Err(e) => {
                    proof {
                        assert(pc_stab_inner(xv[i as int], s_pre, j as int, n as int - 1)
                            == Err::<Seq<(int, int)>, InterpError>(e));
                    }
                    return Err(e);
                },
            };
            let v: Rat = match s[j].minus_r(t) {
                Ok(v) => v,
                Err(e) => {
                    proof {
                        assert(pc_stab_inner(xv[i as int], s_pre, j as int, n as int - 1)
                            == Err::<Seq<(int, int)>, InterpError>(e));
                    }
                    return Err(e);
                },
            };
            s.set(j, v);
            proof {
                assert(rvals(s@) =~= s_pre.update(j as int, v@));
                assert(pc_stab_inner(xv[i as int], s_pre, j as int, n as int - 1)
                    == pc_stab_inner(xv[i as int], rvals(s@), j as int + 1, n as int - 1));
            }
            j = j + 1;
        }
        let ghost s_mid = rvals(s@);
        let w: Rat = match s[n - 1].minus_r(xi) {
            Ok(v) => v,
            Err(e) => {
                return Err(e);
            },
        };
        s.set(n - 1, w);
        proof {
            assert(rvals(s@) =~= s_mid.update(n as int - 1, w@));
        }
        i = i + 1;
    }

    // accumulate each sample's contribution
    let mut coef: Vec<Rat> = zeros_vec(n);
    proof {
        assert(target == pc_samples(xv, yv, rvals(s@), rvals(coef@), 0));
    }
    let ghost sv = rvals(s@);
    let mut j: usize = 0;
    while j < n
        invariant
            0 <= j <= n,
            n == x@.len(),
            n == y@.len(),
            1 <= n <= i64::MAX as int,
            s@.len() == n,
            coef@.len() == n,
            wf_table(x@),
            wf_table(y@),
            wf_table(s@),
            wf_table(coef@),
            xv == rvals(x@),
            yv == rvals(y@),
            sv == rvals(s@),
            target == polcoe_model(xv, yv),
            target == pc_samples(xv, yv, sv, rvals(coef@), j as int),
        decreases n - j,
    {
        let xj: Rat = x[j];
        // the weight phi: Horner over the symmetric functions
        let nr: Rat = Rat::from_int(n as i64);
        let mut phi: Rat = nr;
        let mut k: usize = n - 1;
        while k >= 1
            invariant
                0 <= k <= n - 1,
                0 <= j < n,
                n == x@.len(),
                n == y@.len(),
                1 <= n <= i64::MAX as int,
                s@.len() == n,
                coef@.len() == n,
                wf_table(x@),
                wf_table(y@),
                wf_table(s@),
                wf_table(coef@),
                rat_wf(phi@),
                xv == rvals(x@),
                yv == rvals(y@),
                sv == rvals(s@),
                xj == x@[j as int],
                target == polcoe_model(xv, yv),
                target == pc_sample_tail(xv, yv, sv, rvals(coef@), j as int, pc_phi(
                    xv[j as int],
                    sv,
                    phi@,
                    k as int,
                )),
            decreases k,
        {
            let kr: Rat = Rat::from_int(k as i64);
            let t1: Rat = match kr.times_r(s[k]) {
                Ok(v) => v,
                Err(e) => {
                    return Err(e);
                },
            };
            let t2: Rat = match xj.times_r(phi) {
                Ok(v) => v,
                Err(e) => {
                    return Err(e);
                },
            };
            let v: Rat = match t1.plus_r(t2) {
                Ok(v) => v,
                Err(e) => {
                    return Err(e);
                },
            };
            phi = v;
            k = k - 1;
        }
        let ff: Rat = match y[j].over_r(phi) {
            Ok(v) => v,
            Err(e) => {
                return Err(e);
            },
        };
        // accumulate this sample into the coefficients
        let mut b: Rat = Rat::one();
        let mut k2: usize = n;
        while k2 >= 1
            invariant
                0 <= k2 <= n,
                0 <= j < n,
                n == x@.len(),
                n == y@.len(),
                1 <= n <= i64::MAX as int,
                s@.len() == n,
                coef@.len() == n,
                wf_table(x@),
                wf_table(y@),
                wf_table(s@),
                wf_table(coef@),
                rat_wf(b@),
                rat_wf(ff@),
                xv == rvals(x@),
                yv == rvals(y@),
                sv == rvals(s@),
                xj == x@[j as int],
                target == polcoe_model(xv, yv),
                target == pc_acc_tail(xv, yv, sv, j as int, pc_acc(
                    xv[j as int],
                    ff@,
                    sv,
                    rvals(coef@),
                    b@,
                    k2 as int - 1,
                )),
            decreases k2,
        {
            let k3: usize = k2 - 1;
            let ghost coef_pre = rvals(coef@);
            let t: Rat = match b.times_r(ff) {
                Ok(v) => v,
                Err(e) => {
                    return Err(e);
                },
            };
            let c: Rat = match coef[k3].plus_r(t) {
                Ok(v) => v,
                Err(e) => {
                    return Err(e);
                },
            };
            let t2: Rat = match xj.times_r(b) {
                Ok(v) => v,
                Err(e) => {
                    return Err(e);
                },
            };
            let b2: Rat = match s[k3].plus_r(t2) {
                Ok(v) => v,
                Err(e) => {
                    return Err(e);
                },
            };
            coef.set(k3, c);
            b = b2;
            proof {
                assert(rvals(coef@) =~= coef_pre.update(k3 as int, c@));
            }
            k2 = k3;
        }
        proof {
            assert(pc_acc(xv[j as int], ff@, sv, rvals(coef@), b@, -1) == Ok::<
                (Seq<(int, int)>, (int, int)),
                InterpError,
            >((rvals(coef@), b@)));
            assert(target == pc_samples_next(xv, yv, sv, rvals(coef@), j as int));
        }
        j = j + 1;
    }
    Ok(coef)
}

// ---------------------------------------------------------------------------
// The deflation method, `polcof`.
// ---------------------------------------------------------------------------

/// The absolute value of a rational pair.
pub open spec fn q_abs(v: (int, int)) -> (int, int) {
    (abs(v.0) as int, v.1)
}

/// The first index of the smallest absolute value among the first `hi`
/// entries.
pub open spec fn argmin_abs(t: Seq<(int, int)>, hi: int) -> int
    decreases hi,
{
    if hi <= 1 {
        0
    } else {
        let p = argmin_abs(t, hi - 1);
        if rat_lt(q_abs(t[hi - 1]), q_abs(t[p])) {
            hi - 1
        } else {
            p
        }
    }
}

/// Deflation of the remaining samples: each entry with a nonzero abscissa
/// becomes `(ya[i] - c) / xa[i]`.
pub open spec fn pf_deflate(
    c: (int, int),
    xa: Seq<(int, int)>,
    ya: Seq<(int, int)>,
    i: int,
    hi: int,
) -> Result<Seq<(int, int)>, InterpError>
    decreases hi - i,
{
    if i < 0 || i >= hi || hi > xa.len() || hi > ya.len() {
        Ok(ya)
    } else if xa[i].0 == 0 {
        pf_deflate(c, xa, ya, i + 1, hi)
    } else {
        match s_quot(s_diff(Ok(ya[i]), Ok(c)), Ok(xa[i])) {
            Err(e) => Err(e),
            Ok(v) => pf_deflate(c, xa, ya.update(i, v), i + 1, hi),
        }
    }
}

/// Removal of entry `k` from the first `hi` entries: later entries shift
/// down one place; the stale tail is untouched.
pub open spec fn shift_down(t: Seq<(int, int)>, k: int, hi: int) -> Seq<(int, int)> {
    Seq::new(t.len(), |i: int| if k <= i < hi - 1 { t[i + 1] } else { t[i] })
}

/// The remaining rounds of the deflation method, from round `j` on: take
/// the constant term by Neville evaluation at zero, deflate, and drop the
/// abscissa nearest zero.
pub open spec fn pf_rounds(
    xa: Seq<(int, int)>,
    ya: Seq<(int, int)>,
    coef: Seq<(int, int)>,
    j: int,
) -> Result<Seq<(int, int)>, InterpError>
    decreases xa.len() - j, 2int,
{
    let n = xa.len() as int;
    if j < 0 || j >= n {
        Ok(coef)
    } else {
        pf_round_tail(xa, ya, coef, j, nev_value(
            (0int, 1int),
            xa.subrange(0, n - j),
            ya.subrange(0, n - j),
        ))
    }
}

/// The rest of round `j` once its constant term is known.
pub open spec fn pf_round_tail(
    xa: Seq<(int, int)>,
    ya: Seq<(int, int)>,
    coef: Seq<(int, int)>,
    j: int,
    cres: Result<(int, int), InterpError>,
) -> Result<Seq<(int, int)>, InterpError>
    decreases xa.len() - j, 1int,
{
    let n = xa.len() as int;
    match cres {
        Err(e) => Err(e),
        Ok(c) => match pf_deflate(c, xa, ya, 0, n - j) {
            Err(e) => Err(e),
            Ok(ya2) => pf_next(
                shift_down(xa, argmin_abs(xa, n - j), n - j),
                shift_down(ya2, argmin_abs(xa, n - j), n - j),
                coef.update(j, c),
                j,
            ),
        },
    }
}

/// Step to the next deflation round.
pub open spec fn pf_next(
    xa: Seq<(int, int)>,
    ya: Seq<(int, int)>,
    coef: Seq<(int, int)>,
    j: int,
) -> Result<Seq<(int, int)>, InterpError>
    decreases xa.len() - j, 0int,
{
    if j < 0 || j >= xa.len() - 1 {
        Ok(coef)
    } else {
        pf_rounds(xa, ya, coef, j + 1)
    }
}

/// The checked outcome of `polcof` on the tables `x`, `y`.
pub open spec fn polcof_model(x: Seq<(int, int)>, y: Seq<(int, int)>) -> Result<
    Seq<(int, int)>,
    InterpError,
> {
    pf_rounds(x, y, zero_pairs(x.len() as int), 0)
}

/// The power-basis coefficients of the polynomial through the points
/// `(x[i], y[i])`, by repeated deflation: each round takes the constant
/// term by Neville evaluation at zero, divides it out, and removes the
/// abscissa nearest zero.
///
/// Reports errors exactly as `polcof_model` describes.
#[verifier::loop_isolation(false)]
#[verifier::rlimit(100)]
pub fn polcof(x: &Vec<Rat>, y: &Vec<Rat>) -> (r: Result<Vec<Rat>, InterpError>)
    requires
        wf_table(x@),
        wf_table(y@),
        x@.len() == y@.len(),
        1 <= x@.len(),
    ensures
        res_tab_view(r) == polcof_model(rvals(x@), rvals(y@)),
        r matches Ok(c) ==> wf_table(c@) && c@.len() == x@.len(),
{
    let n: usize = x.len();
    let mut xa: Vec<Rat> = crate::rat::clone_rats(x);
    let mut ya: Vec<Rat> = crate::rat::clone_rats(y);
    let mut coef: Vec<Rat> = zeros_vec(n);
    let ghost target = pf_rounds(rvals(x@), rvals(y@), rvals(coef@), 0);
    let mut j: usize = 0;
    while j < n
        invariant
            0 <= j <= n,
            xa@.len() == n,
            ya@.len() == n,
            coef@.len() == n,
            wf_table(xa@),
            wf_table(ya@),
            wf_table(coef@),
            target == pf_rounds(rvals(xa@), rvals(ya@), rvals(coef@), j as int),
        decreases n - j,
    {
        let ghost xa_round = rvals(xa@);
        let ghost ya_round = rvals(ya@);
        let ghost coef_round = rvals(coef@);
        let hi: usize = n - j;
        // the constant term of the current table's polynomial
        let px: Vec<Rat> = copy_window(&xa, 0, hi);
        let py: Vec<Rat> = copy_window(&ya, 0, hi);
        proof {
            assert forall|k: int| 0 <= k < px@.len() implies rat_wf(#[trigger] px@[k]@) by {
                assert(px@[k] == xa@[k]);
            }
            assert forall|k: int| 0 <= k < py@.len() implies rat_wf(#[trigger] py@[k]@) by {
                assert(py@[k] == ya@[k]);
            }
            assert(rvals(px@) =~= xa_round.subrange(0, hi as int));
            assert(rvals(py@) =~= ya_round.subrange(0, hi as int));
        }
        let c: Rat = match neville(&px, &py, Rat::zero()) {
            Ok(v) => v,
            Err(e) => {
                return Err(e);
            },
        };
        proof {
            assert(target == pf_round_tail(xa_round, ya_round, coef_round, j as int, Ok(c@)));
        }
        coef.set(j, c);
        proof {
            assert(rvals(coef@) =~= coef_round.update(j as int, c@));
        }
        // deflate: divide the constant term out of every remaining sample
        let mut i: usize = 0;
        while i < hi
            invariant
                0 <= i <= hi,
                ya@.len() == n,
                wf_table(ya@),
                pf_deflate(c@, xa_round, ya_round, 0, hi as int) == pf_deflate(
                    c@,
                    xa_round,
                    rvals(ya@),
                    i as int,
                    hi as int,
                ),
            decreases hi - i,
        {
            let ghost ya_pre = rvals(ya@);
            if !xa[i].is_zero() {
                let d: Rat = match ya[i].minus_r(c) {
                    Ok(v) => v,
                    Err(e) => {
                        proof {
                            assert(pf_deflate(c@, xa_round, ya_pre, i as int, hi as int)
                                == Err::<Seq<(int, int)>, InterpError>(e));
                        }
                        return Err(e);
                    },
                };
                let v: Rat = match d.over_r(xa[i]) {
                    Ok(v) => v,
                    Err(e) => {
                        proof {
                            assert(pf_deflate(c@, xa_round, ya_pre, i as int, hi as int)
                                == Err::<Seq<(int, int)>, InterpError>(e));
                        }
                        return Err(e);
                    },
                };
                ya.set(i, v);
                proof {
                    assert(rvals(ya@) =~= ya_pre.update(i as int, v@));
                    assert(pf_deflate(c@, xa_round, ya_pre, i as int, hi as int) == pf_deflate(
                        c@,
                        xa_round,
                        rvals(ya@),
                        i as int + 1,
                        hi as int,
                    ));
                }
            }
            i = i + 1;
        }
        let ghost ya2 = rvals(ya@);
        proof {
            assert(pf_deflate(c@, xa_round, ya_round, 0, hi as int) == Ok::<
                Seq<(int, int)>,
                InterpError,
            >(ya2));
        }
        // the abscissa nearest zero leaves the table
        let mut kmin: usize = 0;
        let mut i2: usize = 1;
        while i2 < hi
            invariant
                1 <= i2 <= hi,
                0 <= kmin < i2,
                kmin as int == argmin_abs(xa_round, i2 as int),
            decreases hi - i2,
        {
            let cand: Rat = xa[i2].abs_val();
            let best: Rat = xa[kmin].abs_val();
            if cand.lt(best) {
                kmin = i2;
            }
            i2 = i2 + 1;
        }
        proof {
            assert(kmin as int == argmin_abs(xa_round, hi as int));
        }
        let mut i3: usize = kmin + 1;
        while i3 < hi
            invariant
                kmin + 1 <= i3 <= hi,
                xa@.len() == n,
                ya@.len() == n,
                forall|t: int| kmin <= t < i3 - 1 ==> #[trigger] xa@[t]@ == xa_round[t + 1],
                forall|t: int| kmin <= t < i3 - 1 ==> #[trigger] ya@[t]@ == ya2[t + 1],
                forall|t: int|
                    0 <= t < n && !(kmin <= t < i3 - 1) ==> #[trigger] xa@[t]@ == xa_round[t],
                forall|t: int|
                    0 <= t < n && !(kmin <= t < i3 - 1) ==> #[trigger] ya@[t]@ == ya2[t],
            decreases hi - i3,
        {
            let xm: Rat = xa[i3];
            let ym: Rat = ya[i3];
            xa.set(i3 - 1, xm);
            ya.set(i3 - 1, ym);
            i3 = i3 + 1;
        }
        proof {
            assert(rvals(xa@) =~= shift_down(xa_round, kmin as int, hi as int));
            assert(rvals(ya@) =~= shift_down(ya2, kmin as int, hi as int));
            assert forall|t: int| 0 <= t < xa@.len() implies rat_wf(#[trigger] xa@[t]@) by {
                assert(rvals(xa@)[t] == xa@[t]@);
                if kmin <= t < hi - 1 {
                    assert(xa@[t]@ == xa_round[t + 1]);
                } else {
                    assert(xa@[t]@ == xa_round[t]);
                }
            }
            assert forall|t: int| 0 <= t < ya@.len() implies rat_wf(#[trigger] ya@[t]@) by {
                if kmin <= t < hi - 1 {
                    assert(ya@[t]@ == ya2[t + 1]);
                } else {
                    assert(ya@[t]@ == ya2[t]);
                }
            }
            assert(target == pf_next(rvals(xa@), rvals(ya@), rvals(coef@), j as int));
        }
        j = j + 1;
    }
    Ok(coef)
}

} // verus!
