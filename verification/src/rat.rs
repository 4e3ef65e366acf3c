//! Exact rational numbers over machine integers.
//!
//! Every quantity the interpolators work with is a `Rat`: a fraction of two
//! `i64` values with a positive denominator, kept in lowest terms by every
//! operation. A value is modelled in specifications by the pair
//! `(numerator, denominator)` of unbounded integers; two pairs denote the same
//! rational exactly when they cross-multiply equally. Operations that could
//! leave the representable range return `None`; the specification pins down
//! precisely when that happens.

use vstd::arithmetic::div_mod::{
    lemma_fundamental_div_mod, lemma_fundamental_div_mod_converse, lemma_add_mod_noop,
    lemma_mod_self_0, lemma_mul_mod_noop_right, lemma_small_mod,
};
use vstd::arithmetic::mul::{lemma_mul_is_commutative, lemma_mul_strictly_positive};
use vstd::math::abs;
use vstd::prelude::*;

use crate::errors::InterpError;

verus! {

// ---------------------------------------------------------------------------
// The mathematical model: pairs of unbounded integers.
// ---------------------------------------------------------------------------

/// A well-formed rational representation: positive denominator, and both
/// components within the symmetric `i64` range (so negation never overflows).
pub open spec fn rat_wf(v: (int, int)) -> bool {
    &&& 1 <= v.1 <= i64::MAX as int
    &&& -(i64::MAX as int) <= v.0 <= i64::MAX as int
}

/// `a` and `b` denote the same rational (cross-multiplication).
pub open spec fn rat_eq(a: (int, int), b: (int, int)) -> bool {
    a.0 * b.1 == b.0 * a.1
}

/// `a <= b` as rationals; meaningful when both denominators are positive.
pub open spec fn rat_le(a: (int, int), b: (int, int)) -> bool {
    a.0 * b.1 <= b.0 * a.1
}

/// `a < b` as rationals; meaningful when both denominators are positive.
pub open spec fn rat_lt(a: (int, int), b: (int, int)) -> bool {
    a.0 * b.1 < b.0 * a.1
}

/// Sum of two pairs, without reduction.
pub open spec fn q_sum(a: (int, int), b: (int, int)) -> (int, int) {
    (a.0 * b.1 + b.0 * a.1, a.1 * b.1)
}

/// Difference of two pairs, without reduction.
pub open spec fn q_diff(a: (int, int), b: (int, int)) -> (int, int) {
    (a.0 * b.1 - b.0 * a.1, a.1 * b.1)
}

/// Product of two pairs, without reduction.
pub open spec fn q_prod(a: (int, int), b: (int, int)) -> (int, int) {
    (a.0 * b.0, a.1 * b.1)
}

/// Quotient of two pairs, without reduction; the denominator is zero
/// exactly when `b` denotes zero.
pub open spec fn q_quot(a: (int, int), b: (int, int)) -> (int, int) {
    (a.0 * b.1, a.1 * b.0)
}

// ---------------------------------------------------------------------------
// Greatest common divisor and reduction to lowest terms.
// ---------------------------------------------------------------------------

/// Euclid's greatest common divisor.
pub open spec fn gcd(a: nat, b: nat) -> nat
    decreases b,
{
    if b == 0 {
        a
    } else {
        gcd(b, a % b)
    }
}

/// A divisor of a sum of a multiple: if `d` divides `y` and `r`, it divides
/// `q * y + r`.
proof fn lemma_divides_combo(y: int, q: int, r: int, d: int)
    requires
        d >= 1,
        y % d == 0,
        r % d == 0,
    ensures
        (q * y + r) % d == 0,
{
    lemma_mul_mod_noop_right(q, y, d);
    lemma_small_mod(0, d as nat);
    assert(q * (y % d) == 0);
    assert((q * y) % d == 0);
    lemma_add_mod_noop(q * y, r, d);
    assert((q * y + r) % d == 0);
}

/// The gcd of `a` and a positive `b` is positive and divides both.
pub proof fn lemma_gcd_props(a: nat, b: nat)
    requires
        b >= 1,
    ensures
        gcd(a, b) >= 1,
        a % gcd(a, b) == 0,
        b % gcd(a, b) == 0,
    decreases b,
{
    let r = a % b;
    let g = gcd(a, b);
    assert(g == gcd(b, r));
    if r == 0 {
        assert(gcd(b, r) == b);
        lemma_mod_self_0(b as int);
    } else {
        lemma_gcd_props(b, r);
        lemma_fundamental_div_mod(a as int, b as int);
        assert(a as int == b as int * (a as int / b as int) + r as int);
        lemma_mul_is_commutative(b as int, a as int / b as int);
        lemma_divides_combo(b as int, a as int / b as int, r as int, g as int);
    }
}

/// Exact division: when `d` divides `m`, the quotient multiplies back.
pub proof fn lemma_div_exact(m: int, d: int)
    requires
        d >= 1,
        m % d == 0,
    ensures
        d * (m / d) == m,
{
    lemma_fundamental_div_mod(m, d);
}

/// Exact division of a negated dividend.
proof fn lemma_div_exact_neg(m: int, d: int)
    requires
        d >= 1,
        m % d == 0,
    ensures
        (-m) / d == -(m / d),
{
    lemma_div_exact(m, d);
    let q = m / d;
    assert(-m == (-q) * d + 0) by {
        lemma_mul_is_commutative(d, q);
        assert((-q) * d == -(q * d)) by (nonlinear_arith);
    }
    lemma_fundamental_div_mod_converse(-m, d, -q, 0);
}

/// `(n, d)` reduced to lowest terms; meaningful when `d >= 1`.
pub open spec fn q_reduce(n: int, d: int) -> (int, int) {
    let g = gcd(abs(n), d as nat) as int;
    if g >= 1 {
        (n / g, d / g)
    } else {
        (n, d)
    }
}

/// Both components of a reduced pair fit the symmetric `i64` range.
pub open spec fn q_fits(v: (int, int)) -> bool {
    &&& -(i64::MAX as int) <= v.0 <= i64::MAX as int
    &&& v.1 <= i64::MAX as int
}

/// The canonical representable form of the fraction `n / d`: sign moved to
/// the numerator, then reduced to lowest terms; `None` when `d` is zero or
/// the reduced components do not fit `i64`.
pub open spec fn q_norm(n: int, d: int) -> Option<(int, int)> {
    if d == 0 {
        None
    } else {
        let n1 = if d < 0 { -n } else { n };
        let d1 = if d < 0 { -d } else { d };
        let r = q_reduce(n1, d1);
        if q_fits(r) {
            Some(r)
        } else {
            None
        }
    }
}

/// Reduction keeps the denominator positive and the value unchanged.
pub proof fn lemma_reduce_props(n: int, d: int)
    requires
        d >= 1,
    ensures
        q_reduce(n, d).1 >= 1,
        rat_eq(q_reduce(n, d), (n, d)),
{
    let g = gcd(abs(n), d as nat) as int;
    lemma_gcd_props(abs(n), d as nat);
    assert(g >= 1);
    let nq = n / g;
    let dq = d / g;
    lemma_div_exact(d, g);
    assert(g * dq == d);
    if dq <= 0 {
        assert(g * dq <= 0) by (nonlinear_arith)
            requires
                g >= 1,
                dq <= 0,
        ;
        assert(false);
    }
    // value preservation: nq * d == n * dq
    if n >= 0 {
        assert(abs(n) == n);
        lemma_div_exact(n, g);
        assert(g * nq == n);
    } else {
        assert(abs(n) == -n);
        lemma_div_exact(-n, g);
        lemma_div_exact_neg(-n, g);
        assert(g * ((-n) / g) == -n);
        assert(nq == -((-n) / g));
        assert(g * nq == n) by (nonlinear_arith)
            requires
                g * (-nq) == -n,
        ;
    }
    assert(nq * d == n * dq) by (nonlinear_arith)
        requires
            g * nq == n,
            g * dq == d,
    ;
}

/// A successful normalization is well formed and denotes `n / d`.
pub proof fn lemma_norm_props(n: int, d: int)
    requires
        d != 0,
        q_norm(n, d) is Some,
    ensures
        rat_wf(q_norm(n, d).unwrap()),
        rat_eq(q_norm(n, d).unwrap(), (n, d)),
{
    let n1 = if d < 0 { -n } else { n };
    let d1 = if d < 0 { -d } else { d };
    let r = q_reduce(n1, d1);
    lemma_reduce_props(n1, d1);
    assert(rat_eq(r, (n1, d1)));
    // (n1, d1) and (n, d) cross-multiply equally in either sign case.
    assert(n1 * d == n * d1) by (nonlinear_arith)
        requires
            (n1 == n && d1 == d) || (n1 == -n && d1 == -d),
    ;
    // transitivity through (n1, d1), whose denominator is nonzero
    assert(r.0 * d == n * r.1) by (nonlinear_arith)
        requires
            r.0 * d1 == n1 * r.1,
            n1 * d == n * d1,
            d1 != 0,
    ;
}

/// Transitivity of `rat_eq` through a pair with nonzero denominator.
pub proof fn lemma_rat_eq_trans(a: (int, int), b: (int, int), c: (int, int))
    requires
        rat_eq(a, b),
        rat_eq(b, c),
        b.1 != 0,
    ensures
        rat_eq(a, c),
{
    assert(a.0 * c.1 == c.0 * a.1) by (nonlinear_arith)
        requires
            a.0 * b.1 == b.0 * a.1,
            b.0 * c.1 == c.0 * b.1,
            b.1 != 0,
    ;
}

// ---------------------------------------------------------------------------
// Checked operations on the model, `Option`-valued.
// ---------------------------------------------------------------------------

/// Checked sum.
pub open spec fn srat_sum(a: (int, int), b: (int, int)) -> Option<(int, int)> {
    q_norm(q_sum(a, b).0, q_sum(a, b).1)
}

/// Checked difference.
pub open spec fn srat_diff(a: (int, int), b: (int, int)) -> Option<(int, int)> {
    q_norm(q_diff(a, b).0, q_diff(a, b).1)
}

/// Checked product.
pub open spec fn srat_prod(a: (int, int), b: (int, int)) -> Option<(int, int)> {
    q_norm(q_prod(a, b).0, q_prod(a, b).1)
}

/// Checked quotient; `None` also covers a zero divisor.
pub open spec fn srat_quot(a: (int, int), b: (int, int)) -> Option<(int, int)> {
    q_norm(q_quot(a, b).0, q_quot(a, b).1)
}

// ---------------------------------------------------------------------------
// The executable type.
// ---------------------------------------------------------------------------

/// An exact rational number: `num / den` with `den >= 1`, in lowest terms as
/// produced by every constructor of this module.
#[derive(Clone, Copy, Debug, PartialEq, Eq, Structural)]
pub struct Rat {
    num: i64,
    den: i64,
}

impl View for Rat {
    type V = (int, int);

    closed spec fn view(&self) -> (int, int) {
        (self.num as int, self.den as int)
    }
}

/// The view of an optional `Rat`.
pub open spec fn opt_view(r: Option<Rat>) -> Option<(int, int)> {
    match r {
        Some(v) => Some(v@),
        None => None,
    }
}

/// The view of a `Rat`-or-error result.
pub open spec fn res_view(r: Result<Rat, InterpError>) -> Result<(int, int), InterpError> {
    match r {
        Ok(v) => Ok(v@),
        Err(e) => Err(e),
    }
}

/// Euclid's algorithm on machine words.
fn gcd_u128(a: u128, b: u128) -> (g: u128)
    ensures
        g as nat == gcd(a as nat, b as nat),
{
    let mut x: u128 = a;
    let mut y: u128 = b;
    while y != 0
        invariant
            gcd(x as nat, y as nat) == gcd(a as nat, b as nat),
        decreases y,
    {
        let r: u128 = x % y;
        x = y;
        y = r;
    }
    x
}

/// Builds the canonical `Rat` for `n / d`, exactly as `q_norm` describes.
fn normalize(n: i128, d: i128) -> (r: Option<Rat>)
    requires
        n > i128::MIN,
        d > i128::MIN,
    ensures
        opt_view(r) == q_norm(n as int, d as int),
        r is Some ==> rat_wf(r.unwrap()@),
{
    if d == 0 {
        return None;
    }
    let na: u128 = if n < 0 {
        (-n) as u128
    } else {
        n as u128
    };
    let da: u128 = if d < 0 {
        (-d) as u128
    } else {
        d as u128
    };
    let neg: bool = (n < 0) != (d < 0);
    let g: u128 = gcd_u128(na, da);
    let ghost n1: int = if d < 0 { -(n as int) } else { n as int };
    let ghost d1: int = if d < 0 { -(d as int) } else { d as int };
    proof {
        assert(na as nat == abs(n1));
        assert(da as nat == d1);
        lemma_gcd_props(na as nat, da as nat);
    }
    let nr: u128 = na / g;
    let dr: u128 = da / g;
    proof {
        lemma_reduce_props(n1, d1);
        lemma_div_exact(d1, g as int);
        // the reduced numerator is the signed magnitude quotient
        if n1 < 0 {
            lemma_div_exact_neg(na as int, g as int);
            assert(n1 / (g as int) == -(nr as int));
        } else {
            assert(n1 / (g as int) == nr as int);
        }
        assert(q_reduce(n1, d1).1 == dr as int);
    }
    if nr <= i64::MAX as u128 && dr <= i64::MAX as u128 {
        let numv: i64 = if neg && nr > 0 {
            -(nr as i64)
        } else {
            nr as i64
        };
        proof {
            if n1 < 0 && nr > 0 {
                assert(neg);
            }
            if nr == 0 {
                assert(q_reduce(n1, d1).0 == 0);
            }
            assert(numv as int == q_reduce(n1, d1).0);
        }
        Some(Rat { num: numv, den: dr as i64 })
    } else {
        None
    }
}

impl Rat {
    /// The canonical rational `num / den`, or `None` when `den` is zero or
    /// the reduced fraction does not fit.
    pub fn new(num: i64, den: i64) -> (r: Option<Rat>)
        ensures
            opt_view(r) == q_norm(num as int, den as int),
            r is Some ==> rat_wf(r.unwrap()@),
    {
        normalize(num as i128, den as i128)
    }

    /// The integer `n` as a rational.
    pub fn from_int(n: i64) -> (r: Rat)
        requires
            n > i64::MIN,
        ensures
            r@ == (n as int, 1int),
            rat_wf(r@),
    {
        Rat { num: n, den: 1 }
    }

    /// Zero.
    pub fn zero() -> (r: Rat)
        ensures
            r@ == (0int, 1int),
            rat_wf(r@),
    {
        Rat { num: 0, den: 1 }
    }

    /// One.
    pub fn one() -> (r: Rat)
        ensures
            r@ == (1int, 1int),
            rat_wf(r@),
    {
        Rat { num: 1, den: 1 }
    }

    /// The numerator of the reduced form.
    pub fn numerator(&self) -> (r: i64)
        ensures
            r as int == self@.0,
    {
        self.num
    }

    /// The denominator of the reduced form.
    pub fn denominator(&self) -> (r: i64)
        ensures
            r as int == self@.1,
    {
        self.den
    }

    /// Checked sum.
    pub fn plus(self, rhs: Rat) -> (r: Option<Rat>)
        requires
            rat_wf(self@),
            rat_wf(rhs@),
        ensures
            opt_view(r) == srat_sum(self@, rhs@),
            r is Some ==> rat_wf(r.unwrap()@),
    {
        proof {
            lemma_i64_prod_bounds(self.num as int, rhs.den as int);
            lemma_i64_prod_bounds(rhs.num as int, self.den as int);
            lemma_i64_prod_bounds(self.den as int, rhs.den as int);
        }
        let n: i128 = (self.num as i128) * (rhs.den as i128) + (rhs.num as i128) * (self.den as i128);
        let d: i128 = (self.den as i128) * (rhs.den as i128);
        normalize(n, d)
    }

    /// Checked difference.
    pub fn minus(self, rhs: Rat) -> (r: Option<Rat>)
        requires
            rat_wf(self@),
            rat_wf(rhs@),
        ensures
            opt_view(r) == srat_diff(self@, rhs@),
            r is Some ==> rat_wf(r.unwrap()@),
    {
        proof {
            lemma_i64_prod_bounds(self.num as int, rhs.den as int);
            lemma_i64_prod_bounds(rhs.num as int, self.den as int);
            lemma_i64_prod_bounds(self.den as int, rhs.den as int);
        }
        let n: i128 = (self.num as i128) * (rhs.den as i128) - (rhs.num as i128) * (self.den as i128);
        let d: i128 = (self.den as i128) * (rhs.den as i128);
        normalize(n, d)
    }

    /// Checked product.
    pub fn times(self, rhs: Rat) -> (r: Option<Rat>)
        requires
            rat_wf(self@),
            rat_wf(rhs@),
        ensures
            opt_view(r) == srat_prod(self@, rhs@),
            r is Some ==> rat_wf(r.unwrap()@),
    {
        proof {
            lemma_i64_prod_bounds(self.num as int, rhs.num as int);
            lemma_i64_prod_bounds(self.den as int, rhs.den as int);
        }
        let n: i128 = (self.num as i128) * (rhs.num as i128);
        let d: i128 = (self.den as i128) * (rhs.den as i128);
        normalize(n, d)
    }

    /// Checked quotient; `None` also when `rhs` is zero.
    pub fn over(self, rhs: Rat) -> (r: Option<Rat>)
        requires
            rat_wf(self@),
            rat_wf(rhs@),
        ensures
            opt_view(r) == srat_quot(self@, rhs@),
            r is Some ==> rat_wf(r.unwrap()@),
    {
        proof {
            lemma_i64_prod_bounds(self.num as int, rhs.den as int);
            lemma_i64_prod_bounds(self.den as int, rhs.num as int);
        }
        let n: i128 = (self.num as i128) * (rhs.den as i128);
        let d: i128 = (self.den as i128) * (rhs.num as i128);
        normalize(n, d)
    }

    /// Exact negation.
    pub fn negate(self) -> (r: Rat)
        requires
            rat_wf(self@),
        ensures
            r@ == (-self@.0, self@.1),
            rat_wf(r@),
    {
        Rat { num: -self.num, den: self.den }
    }

    /// Exact absolute value.
    pub fn abs_val(self) -> (r: Rat)
        requires
            rat_wf(self@),
        ensures
            r@ == (abs(self@.0) as int, self@.1),
            rat_wf(r@),
    {
        if self.num < 0 {
            Rat { num: -self.num, den: self.den }
        } else {
            self
        }
    }

    /// `self <= rhs` as rationals.
    pub fn le(self, rhs: Rat) -> (r: bool)
        requires
            rat_wf(self@),
            rat_wf(rhs@),
        ensures
            r == rat_le(self@, rhs@),
    {
        proof {
            lemma_i64_prod_bounds(self.num as int, rhs.den as int);
            lemma_i64_prod_bounds(rhs.num as int, self.den as int);
        }
        (self.num as i128) * (rhs.den as i128) <= (rhs.num as i128) * (self.den as i128)
    }

    /// `self < rhs` as rationals.
    pub fn lt(self, rhs: Rat) -> (r: bool)
        requires
            rat_wf(self@),
            rat_wf(rhs@),
        ensures
            r == rat_lt(self@, rhs@),
    {
        proof {
            lemma_i64_prod_bounds(self.num as int, rhs.den as int);
            lemma_i64_prod_bounds(rhs.num as int, self.den as int);
        }
        (self.num as i128) * (rhs.den as i128) < (rhs.num as i128) * (self.den as i128)
    }

    /// `self == rhs` as rationals.
    pub fn eq_val(self, rhs: Rat) -> (r: bool)
        requires
            rat_wf(self@),
            rat_wf(rhs@),
        ensures
            r == rat_eq(self@, rhs@),
    {
        proof {
            lemma_i64_prod_bounds(self.num as int, rhs.den as int);
            lemma_i64_prod_bounds(rhs.num as int, self.den as int);
        }
        (self.num as i128) * (rhs.den as i128) == (rhs.num as i128) * (self.den as i128)
    }

    /// Whether `self` is zero.
    pub fn is_zero(self) -> (r: bool)
        ensures
            r == (self@.0 == 0),
    {
        self.num == 0
    }
}

/// A product of two values in the symmetric `i64` range stays well inside
/// `i128`.
pub proof fn lemma_i64_prod_bounds(a: int, b: int)
    requires
        -(i64::MAX as int) <= a <= i64::MAX as int,
        -(i64::MAX as int) <= b <= i64::MAX as int,
    ensures
        -(0x4000_0000_0000_0000_0000_0000_0000_0000int) < a * b
            < 0x4000_0000_0000_0000_0000_0000_0000_0000int,
{
    assert(-(0x4000_0000_0000_0000_0000_0000_0000_0000int) < a * b
        < 0x4000_0000_0000_0000_0000_0000_0000_0000int) by (nonlinear_arith)
        requires
            -(i64::MAX as int) <= a <= i64::MAX as int,
            -(i64::MAX as int) <= b <= i64::MAX as int,
    ;
}


// ---------------------------------------------------------------------------
// Order algebra.
// ---------------------------------------------------------------------------

/// Transitivity of `<=` over rationals with positive denominators.
pub proof fn lemma_rat_le_le_trans(a: (int, int), b: (int, int), c: (int, int))
    requires
        a.1 >= 1,
        b.1 >= 1,
        c.1 >= 1,
        rat_le(a, b),
        rat_le(b, c),
    ensures
        rat_le(a, c),
{
    assert(a.0 * c.1 <= c.0 * a.1) by (nonlinear_arith)
        requires
            a.0 * b.1 <= b.0 * a.1,
            b.0 * c.1 <= c.0 * b.1,
            a.1 >= 1,
            b.1 >= 1,
            c.1 >= 1,
    ;
}

/// `a <= b < c` gives `a < c` over rationals with positive denominators.
pub proof fn lemma_rat_le_lt_trans(a: (int, int), b: (int, int), c: (int, int))
    requires
        a.1 >= 1,
        b.1 >= 1,
        c.1 >= 1,
        rat_le(a, b),
        rat_lt(b, c),
    ensures
        rat_lt(a, c),
{
    assert(a.0 * c.1 < c.0 * a.1) by (nonlinear_arith)
        requires
            a.0 * b.1 <= b.0 * a.1,
            b.0 * c.1 < c.0 * b.1,
            a.1 >= 1,
            b.1 >= 1,
            c.1 >= 1,
    ;
}

/// `a < b <= c` gives `a < c` over rationals with positive denominators.
pub proof fn lemma_rat_lt_le_trans(a: (int, int), b: (int, int), c: (int, int))
    requires
        a.1 >= 1,
        b.1 >= 1,
        c.1 >= 1,
        rat_lt(a, b),
        rat_le(b, c),
    ensures
        rat_lt(a, c),
{
    assert(a.0 * c.1 < c.0 * a.1) by (nonlinear_arith)
        requires
            a.0 * b.1 < b.0 * a.1,
            b.0 * c.1 <= c.0 * b.1,
            a.1 >= 1,
            b.1 >= 1,
            c.1 >= 1,
    ;
}

// ---------------------------------------------------------------------------
// Checked operations threaded through `Result`, as the evaluators use them.
// ---------------------------------------------------------------------------

/// Sum of two checked intermediate results; an earlier error wins, and an
/// unrepresentable sum reports `Overflow`.
pub open spec fn s_sum(
    a: Result<(int, int), InterpError>,
    b: Result<(int, int), InterpError>,
) -> Result<(int, int), InterpError> {
    match a {
        Err(e) => Err(e),
        Ok(av) => match b {
            Err(e) => Err(e),
            Ok(bv) => match srat_sum(av, bv) {
                Some(v) => Ok(v),
                None => Err(InterpError::Overflow),
            },
        },
    }
}

/// Difference of two checked intermediate results.
pub open spec fn s_diff(
    a: Result<(int, int), InterpError>,
    b: Result<(int, int), InterpError>,
) -> Result<(int, int), InterpError> {
    match a {
        Err(e) => Err(e),
        Ok(av) => match b {
            Err(e) => Err(e),
            Ok(bv) => match srat_diff(av, bv) {
                Some(v) => Ok(v),
                None => Err(InterpError::Overflow),
            },
        },
    }
}

/// Product of two checked intermediate results.
pub open spec fn s_prod(
    a: Result<(int, int), InterpError>,
    b: Result<(int, int), InterpError>,
) -> Result<(int, int), InterpError> {
    match a {
        Err(e) => Err(e),
        Ok(av) => match b {
            Err(e) => Err(e),
            Ok(bv) => match srat_prod(av, bv) {
                Some(v) => Ok(v),
                None => Err(InterpError::Overflow),
            },
        },
    }
}

/// Quotient of two checked intermediate results; a zero divisor reports
/// `DegenerateInterval`.
pub open spec fn s_quot(
    a: Result<(int, int), InterpError>,
    b: Result<(int, int), InterpError>,
) -> Result<(int, int), InterpError> {
    match a {
        Err(e) => Err(e),
        Ok(av) => match b {
            Err(e) => Err(e),
            Ok(bv) => if bv.0 == 0 {
                Err(InterpError::DegenerateInterval)
            } else {
                match srat_quot(av, bv) {
                    Some(v) => Ok(v),
                    None => Err(InterpError::Overflow),
                }
            },
        },
    }
}

impl Rat {
    /// Checked sum, reporting `Overflow` on an unrepresentable result.
    pub fn plus_r(self, rhs: Rat) -> (r: Result<Rat, InterpError>)
        requires
            rat_wf(self@),
            rat_wf(rhs@),
        ensures
            res_view(r) == s_sum(Ok(self@), Ok(rhs@)),
            r is Ok ==> rat_wf(r.unwrap()@),
    {
        match self.plus(rhs) {
            Some(v) => Ok(v),
            None => Err(InterpError::Overflow),
        }
    }

    /// Checked difference, reporting `Overflow` on an unrepresentable result.
    pub fn minus_r(self, rhs: Rat) -> (r: Result<Rat, InterpError>)
        requires
            rat_wf(self@),
            rat_wf(rhs@),
        ensures
            res_view(r) == s_diff(Ok(self@), Ok(rhs@)),
            r is Ok ==> rat_wf(r.unwrap()@),
    {
        match self.minus(rhs) {
            Some(v) => Ok(v),
            None => Err(InterpError::Overflow),
        }
    }

    /// Checked product, reporting `Overflow` on an unrepresentable result.
    pub fn times_r(self, rhs: Rat) -> (r: Result<Rat, InterpError>)
        requires
            rat_wf(self@),
            rat_wf(rhs@),
        ensures
            res_view(r) == s_prod(Ok(self@), Ok(rhs@)),
            r is Ok ==> rat_wf(r.unwrap()@),
    {
        match self.times(rhs) {
            Some(v) => Ok(v),
            None => Err(InterpError::Overflow),
        }
    }

    /// Checked quotient, reporting `DegenerateInterval` on a zero divisor and
    /// `Overflow` on an unrepresentable result.
    pub fn over_r(self, rhs: Rat) -> (r: Result<Rat, InterpError>)
        requires
            rat_wf(self@),
            rat_wf(rhs@),
        ensures
            res_view(r) == s_quot(Ok(self@), Ok(rhs@)),
            r is Ok ==> rat_wf(r.unwrap()@),
    {
        if rhs.is_zero() {
            Err(InterpError::DegenerateInterval)
        } else {
            match self.over(rhs) {
                Some(v) => Ok(v),
                None => Err(InterpError::Overflow),
            }
        }
    }
}

/// A successful checked sum denotes the exact rational sum.
pub proof fn lemma_s_sum_ok(a: (int, int), b: (int, int))
    requires
        rat_wf(a),
        rat_wf(b),
        s_sum(Ok(a), Ok(b)) is Ok,
    ensures
        rat_eq(s_sum(Ok(a), Ok(b)).unwrap(), q_sum(a, b)),
        rat_wf(s_sum(Ok(a), Ok(b)).unwrap()),
{
    lemma_mul_strictly_positive(a.1, b.1);
    lemma_norm_props(q_sum(a, b).0, q_sum(a, b).1);
}

/// A successful checked difference denotes the exact rational difference.
pub proof fn lemma_s_diff_ok(a: (int, int), b: (int, int))
    requires
        rat_wf(a),
        rat_wf(b),
        s_diff(Ok(a), Ok(b)) is Ok,
    ensures
        rat_eq(s_diff(Ok(a), Ok(b)).unwrap(), q_diff(a, b)),
        rat_wf(s_diff(Ok(a), Ok(b)).unwrap()),
{
    lemma_mul_strictly_positive(a.1, b.1);
    lemma_norm_props(q_diff(a, b).0, q_diff(a, b).1);
}

/// A successful checked product denotes the exact rational product.
pub proof fn lemma_s_prod_ok(a: (int, int), b: (int, int))
    requires
        rat_wf(a),
        rat_wf(b),
        s_prod(Ok(a), Ok(b)) is Ok,
    ensures
        rat_eq(s_prod(Ok(a), Ok(b)).unwrap(), q_prod(a, b)),
        rat_wf(s_prod(Ok(a), Ok(b)).unwrap()),
{
    lemma_mul_strictly_positive(a.1, b.1);
    lemma_norm_props(q_prod(a, b).0, q_prod(a, b).1);
}

/// A successful checked quotient denotes the exact rational quotient.
pub proof fn lemma_s_quot_ok(a: (int, int), b: (int, int))
    requires
        rat_wf(a),
        rat_wf(b),
        s_quot(Ok(a), Ok(b)) is Ok,
    ensures
        rat_eq(s_quot(Ok(a), Ok(b)).unwrap(), q_quot(a, b)),
        rat_wf(s_quot(Ok(a), Ok(b)).unwrap()),
        b.0 != 0,
{
    assert(b.0 != 0);
    if q_quot(a, b).1 == 0 {
        assert(a.1 * b.0 != 0) by (nonlinear_arith)
            requires
                a.1 >= 1,
                b.0 != 0,
        ;
        assert(false);
    }
    lemma_norm_props(q_quot(a, b).0, q_quot(a, b).1);
}


// ---------------------------------------------------------------------------
// Tables of rationals.
// ---------------------------------------------------------------------------

/// The sequence of values a table of rationals denotes.
pub open spec fn rvals(s: Seq<Rat>) -> Seq<(int, int)> {
    Seq::new(s.len(), |i: int| s[i]@)
}

/// A copy of a table.
pub fn clone_rats(v: &Vec<Rat>) -> (r: Vec<Rat>)
    ensures
        r@ == v@,
{
    let mut r: Vec<Rat> = Vec::new();
    let mut i: usize = 0;
    while i < v.len()
        invariant
            0 <= i <= v@.len(),
            r@ == v@.subrange(0, i as int),
        decreases v@.len() - i,
    {
        r.push(v[i]);
        proof {
            assert(v@.subrange(0, i as int + 1) =~= v@.subrange(0, i as int).push(v@[i as int]));
        }
        i = i + 1;
    }
    proof {
        assert(v@.subrange(0, v@.len() as int) =~= v@);
    }
    r
}

/// A copy of `count` consecutive entries of a table, starting at `start`.
pub fn copy_window(v: &Vec<Rat>, start: usize, count: usize) -> (r: Vec<Rat>)
    requires
        start + count <= v@.len(),
    ensures
        r@ == v@.subrange(start as int, start as int + count as int),
{
    let n: usize = v.len();
    let mut r: Vec<Rat> = Vec::new();
    let mut i: usize = 0;
    while i < count
        invariant
            0 <= i <= count,
            n == v@.len(),
            start + count <= n,
            r@ == v@.subrange(start as int, start as int + i as int),
        decreases count - i,
    {
        r.push(v[start + i]);
        proof {
            assert(v@.subrange(start as int, start as int + i as int + 1) =~= v@.subrange(
                start as int,
                start as int + i as int,
            ).push(v@[start as int + i as int]));
        }
        i = i + 1;
    }
    r
}


// ---------------------------------------------------------------------------
// Congruence of the pair operations under rational equality.
// ---------------------------------------------------------------------------

/// Scalar ring identity behind sum congruence.
proof fn lemma_ring_sum_congr(
    a0: int,
    a1: int,
    b0: int,
    b1: int,
    c0: int,
    c1: int,
    d0: int,
    d1: int,
)
    requires
        a0 * c1 == c0 * a1,
        b0 * d1 == d0 * b1,
    ensures
        (a0 * b1 + b0 * a1) * (c1 * d1) == (c0 * d1 + d0 * c1) * (a1 * b1),
{
    assert((a0 * c1) * (b1 * d1) == (c0 * a1) * (b1 * d1));
    assert((b0 * d1) * (a1 * c1) == (d0 * b1) * (a1 * c1));
    assert((a0 * b1) * (c1 * d1) == (a0 * c1) * (b1 * d1)) by (nonlinear_arith);
    assert((c0 * d1) * (a1 * b1) == (c0 * a1) * (b1 * d1)) by (nonlinear_arith);
    assert((b0 * a1) * (c1 * d1) == (b0 * d1) * (a1 * c1)) by (nonlinear_arith);
    assert((d0 * c1) * (a1 * b1) == (d0 * b1) * (a1 * c1)) by (nonlinear_arith);
    assert((a0 * b1 + b0 * a1) * (c1 * d1) == (a0 * b1) * (c1 * d1) + (b0 * a1) * (c1 * d1))
        by (nonlinear_arith);
    assert((c0 * d1 + d0 * c1) * (a1 * b1) == (c0 * d1) * (a1 * b1) + (d0 * c1) * (a1 * b1))
        by (nonlinear_arith);
}

/// Scalar ring identity behind difference congruence.
proof fn lemma_ring_diff_congr2(
    a0: int,
    a1: int,
    b0: int,
    b1: int,
    c0: int,
    c1: int,
    d0: int,
    d1: int,
)
    requires
        a0 * c1 == c0 * a1,
        b0 * d1 == d0 * b1,
    ensures
        (a0 * b1 - b0 * a1) * (c1 * d1) == (c0 * d1 - d0 * c1) * (a1 * b1),
{
    assert((a0 * c1) * (b1 * d1) == (c0 * a1) * (b1 * d1));
    assert((b0 * d1) * (a1 * c1) == (d0 * b1) * (a1 * c1));
    assert((a0 * b1) * (c1 * d1) == (a0 * c1) * (b1 * d1)) by (nonlinear_arith);
    assert((c0 * d1) * (a1 * b1) == (c0 * a1) * (b1 * d1)) by (nonlinear_arith);
    assert((b0 * a1) * (c1 * d1) == (b0 * d1) * (a1 * c1)) by (nonlinear_arith);
    assert((d0 * c1) * (a1 * b1) == (d0 * b1) * (a1 * c1)) by (nonlinear_arith);
    assert((a0 * b1 - b0 * a1) * (c1 * d1) == (a0 * b1) * (c1 * d1) - (b0 * a1) * (c1 * d1))
        by (nonlinear_arith);
    assert((c0 * d1 - d0 * c1) * (a1 * b1) == (c0 * d1) * (a1 * b1) - (d0 * c1) * (a1 * b1))
        by (nonlinear_arith);
}

/// Scalar ring identity behind product congruence.
proof fn lemma_ring_prod_congr(
    a0: int,
    a1: int,
    b0: int,
    b1: int,
    c0: int,
    c1: int,
    d0: int,
    d1: int,
)
    requires
        a0 * c1 == c0 * a1,
        b0 * d1 == d0 * b1,
    ensures
        (a0 * b0) * (c1 * d1) == (c0 * d0) * (a1 * b1),
{
    assert((a0 * c1) * (b0 * d1) == (c0 * a1) * (d0 * b1));
    assert((a0 * b0) * (c1 * d1) == (a0 * c1) * (b0 * d1)) by (nonlinear_arith);
    assert((c0 * d0) * (a1 * b1) == (c0 * a1) * (d0 * b1)) by (nonlinear_arith);
}

/// Scalar ring identity behind quotient congruence.
proof fn lemma_ring_quot_congr(
    a0: int,
    a1: int,
    b0: int,
    b1: int,
    c0: int,
    c1: int,
    d0: int,
    d1: int,
)
    requires
        a0 * c1 == c0 * a1,
        b0 * d1 == d0 * b1,
    ensures
        (a0 * b1) * (c1 * d0) == (c0 * d1) * (a1 * b0),
{
    assert((a0 * c1) * (d0 * b1) == (c0 * a1) * (b0 * d1));
    assert((a0 * b1) * (c1 * d0) == (a0 * c1) * (d0 * b1)) by (nonlinear_arith);
    assert((c0 * d1) * (a1 * b0) == (c0 * a1) * (b0 * d1)) by (nonlinear_arith);
}

/// Equal rationals have equal sums.
pub proof fn lemma_q_sum_congr(a: (int, int), a2: (int, int), b: (int, int), b2: (int, int))
    requires
        rat_eq(a, a2),
        rat_eq(b, b2),
    ensures
        rat_eq(q_sum(a, b), q_sum(a2, b2)),
{
    lemma_ring_sum_congr(a.0, a.1, b.0, b.1, a2.0, a2.1, b2.0, b2.1);
}

/// Equal rationals have equal differences.
pub proof fn lemma_q_diff_congr(a: (int, int), a2: (int, int), b: (int, int), b2: (int, int))
    requires
        rat_eq(a, a2),
        rat_eq(b, b2),
    ensures
        rat_eq(q_diff(a, b), q_diff(a2, b2)),
{
    lemma_ring_diff_congr2(a.0, a.1, b.0, b.1, a2.0, a2.1, b2.0, b2.1);
}

/// Equal rationals have equal products.
pub proof fn lemma_q_prod_congr(a: (int, int), a2: (int, int), b: (int, int), b2: (int, int))
    requires
        rat_eq(a, a2),
        rat_eq(b, b2),
    ensures
        rat_eq(q_prod(a, b), q_prod(a2, b2)),
{
    lemma_ring_prod_congr(a.0, a.1, b.0, b.1, a2.0, a2.1, b2.0, b2.1);
}

/// Equal rationals have equal quotients.
pub proof fn lemma_q_quot_congr(a: (int, int), a2: (int, int), b: (int, int), b2: (int, int))
    requires
        rat_eq(a, a2),
        rat_eq(b, b2),
    ensures
        rat_eq(q_quot(a, b), q_quot(a2, b2)),
{
    lemma_ring_quot_congr(a.0, a.1, b.0, b.1, a2.0, a2.1, b2.0, b2.1);
}


// ---------------------------------------------------------------------------
// Checked operations that track an unreduced model value.
// ---------------------------------------------------------------------------

/// Denominators of a product of well-formed rationals stay positive.
pub proof fn lemma_den_pos(a: (int, int), b: (int, int))
    requires
        a.1 >= 1,
        b.1 >= 1,
    ensures
        a.1 * b.1 >= 1,
{
    lemma_mul_strictly_positive(a.1, b.1);
}

/// Checked sum that denotes the unreduced sum of the model values.
pub(crate) fn sum_tracked(a: Rat, b: Rat, pa: Ghost<(int, int)>, pb: Ghost<(int, int)>) -> (r:
    Option<Rat>)
    requires
        rat_wf(a@),
        rat_wf(b@),
        rat_eq(a@, pa@),
        rat_eq(b@, pb@),
    ensures
        opt_view(r) == srat_sum(a@, b@),
        r matches Some(v) ==> rat_wf(v@) && rat_eq(v@, q_sum(pa@, pb@)),
{
    let r = a.plus(b);
    proof {
        if r is Some {
            lemma_s_sum_ok(a@, b@);
            lemma_q_sum_congr(a@, pa@, b@, pb@);
            lemma_den_pos(a@, b@);
            lemma_rat_eq_trans(r.unwrap()@, q_sum(a@, b@), q_sum(pa@, pb@));
        }
    }
    r
}

/// Checked difference that denotes the unreduced difference of the model
/// values.
pub(crate) fn diff_tracked(a: Rat, b: Rat, pa: Ghost<(int, int)>, pb: Ghost<(int, int)>) -> (r:
    Option<Rat>)
    requires
        rat_wf(a@),
        rat_wf(b@),
        rat_eq(a@, pa@),
        rat_eq(b@, pb@),
    ensures
        opt_view(r) == srat_diff(a@, b@),
        r matches Some(v) ==> rat_wf(v@) && rat_eq(v@, q_diff(pa@, pb@)),
{
    let r = a.minus(b);
    proof {
        if r is Some {
            lemma_s_diff_ok(a@, b@);
            lemma_q_diff_congr(a@, pa@, b@, pb@);
            lemma_den_pos(a@, b@);
            lemma_rat_eq_trans(r.unwrap()@, q_diff(a@, b@), q_diff(pa@, pb@));
        }
    }
    r
}

/// Checked product that denotes the unreduced product of the model values.
pub(crate) fn prod_tracked(a: Rat, b: Rat, pa: Ghost<(int, int)>, pb: Ghost<(int, int)>) -> (r:
    Option<Rat>)
    requires
        rat_wf(a@),
        rat_wf(b@),
        rat_eq(a@, pa@),
        rat_eq(b@, pb@),
    ensures
        opt_view(r) == srat_prod(a@, b@),
        r matches Some(v) ==> rat_wf(v@) && rat_eq(v@, q_prod(pa@, pb@)),
{
    let r = a.times(b);
    proof {
        if r is Some {
            lemma_s_prod_ok(a@, b@);
            lemma_q_prod_congr(a@, pa@, b@, pb@);
            lemma_den_pos(a@, b@);
            lemma_rat_eq_trans(r.unwrap()@, q_prod(a@, b@), q_prod(pa@, pb@));
        }
    }
    r
}

/// Checked quotient that denotes the unreduced quotient of the model values.
pub(crate) fn quot_tracked(a: Rat, b: Rat, pa: Ghost<(int, int)>, pb: Ghost<(int, int)>) -> (r:
    Option<Rat>)
    requires
        rat_wf(a@),
        rat_wf(b@),
        rat_eq(a@, pa@),
        rat_eq(b@, pb@),
    ensures
        opt_view(r) == srat_quot(a@, b@),
        r matches Some(v) ==> rat_wf(v@) && rat_eq(v@, q_quot(pa@, pb@)),
{
    if b.is_zero() {
        proof {
            assert(q_quot(a@, b@).1 == a@.1 * 0 == 0) by (nonlinear_arith)
                requires
                    b@.0 == 0,
                    q_quot(a@, b@).1 == a@.1 * b@.0,
            ;
        }
        return None;
    }
    let r = a.over(b);
    proof {
        if r is Some {
            lemma_s_quot_ok(a@, b@);
            lemma_q_quot_congr(a@, pa@, b@, pb@);
            assert(q_quot(a@, b@).1 != 0) by (nonlinear_arith)
                requires
                    q_quot(a@, b@).1 == a@.1 * b@.0,
                    a@.1 >= 1,
                    b@.0 != 0,
            ;
            lemma_rat_eq_trans(r.unwrap()@, q_quot(a@, b@), q_quot(pa@, pb@));
        }
    }
    r
}

} // verus!
