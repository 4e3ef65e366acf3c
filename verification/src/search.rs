//! Stateful table location: bisection with hunt acceleration.
//!
//! `BisectHunt1D` maps a query value to the start of an interpolation window
//! inside a strictly monotone table. It remembers the bracket of the previous
//! query; when consecutive queries land close together it "hunts" outward
//! from the remembered index in exponentially growing steps before bisecting,
//! instead of bisecting the whole table. The returned index is a function of
//! the table and the query alone — the remembered state only changes how fast
//! it is found — and the contract says so.

use vstd::math::abs;
use vstd::prelude::*;

use crate::errors::InterpError;
use crate::rat::{
    lemma_rat_le_le_trans, lemma_rat_le_lt_trans, lemma_rat_lt_le_trans, rat_le, rat_lt, rat_wf,
    Rat,
};

verus! {

// ---------------------------------------------------------------------------
// Table predicates.
// ---------------------------------------------------------------------------

/// Every entry of the table is a well-formed rational.
pub open spec fn wf_table(t: Seq<Rat>) -> bool {
    forall|i: int| 0 <= i < t.len() ==> rat_wf(#[trigger] t[i]@)
}

/// `a` strictly precedes `b` in table direction (`asc` true: ascending).
pub open spec fn lt_dir(asc: bool, a: (int, int), b: (int, int)) -> bool {
    if asc {
        rat_lt(a, b)
    } else {
        rat_lt(b, a)
    }
}

/// `a` precedes or equals `b` in table direction.
pub open spec fn le_dir(asc: bool, a: (int, int), b: (int, int)) -> bool {
    if asc {
        rat_le(a, b)
    } else {
        rat_le(b, a)
    }
}

/// The table is strictly monotone in direction `asc`.
pub open spec fn monotone_dir(t: Seq<Rat>, asc: bool) -> bool {
    forall|i: int| 0 <= i && i + 1 < t.len() ==> lt_dir(asc, #[trigger] t[i]@, t[i + 1]@)
}

/// The query lies between the table's first and last entries.
pub open spec fn in_range_dir(t: Seq<Rat>, asc: bool, x: (int, int)) -> bool {
    le_dir(asc, t[0]@, x) && le_dir(asc, x, t[t.len() - 1]@)
}

/// `x` sits on the upper-index side of entry `v`: at or past it for an
/// ascending table, strictly before it for a descending one. This is the
/// single comparison the search is built from.
pub open spec fn upper_side(x: (int, int), v: (int, int), asc: bool) -> bool {
    rat_le(v, x) == asc
}

/// `l` is the raw bisection bracket for `x`: the unique adjacent pair
/// `(l, l+1)` such that `x` sits past `t[l]` and before `t[l+1]`, with the
/// two table ends absorbing out-of-range queries.
pub open spec fn is_raw_bracket(t: Seq<Rat>, asc: bool, x: (int, int), l: int) -> bool {
    &&& 0 <= l <= t.len() - 2
    &&& (l == 0 || upper_side(x, t[l]@, asc))
    &&& (l == t.len() - 2 || !upper_side(x, t[l + 1]@, asc))
}

/// The raw bracket of `x` in `t`; well defined because the bracket exists
/// and is unique for a strictly monotone table (`lemma_raw_bracket_unique`).
pub open spec fn raw_bracket(t: Seq<Rat>, asc: bool, x: (int, int)) -> int {
    choose|l: int| is_raw_bracket(t, asc, x, l)
}

/// Window clamping: a raw bracket near a table end is pulled back so that
/// the window of `m + 1` points starting at the result stays inside the
/// table; elsewhere the window is centred on the bracket.
pub open spec fn clamp_window(l: int, n: int, m: int) -> int {
    if l < m {
        0
    } else if l > n - m - 1 {
        n - m - 1
    } else {
        l - ((m - 2) / 2)
    }
}

/// The index `locate` returns: a function of table, direction, window and
/// query alone, independent of the locator's remembered state.
pub open spec fn spec_locate(t: Seq<Rat>, asc: bool, m: int, x: (int, int)) -> int {
    clamp_window(raw_bracket(t, asc, x), t.len() as int, m)
}

/// A table the locator accepts: window at least two, at least as many
/// points as the window holds, strictly monotone in one direction, and
/// small enough that the hunt's doubled steps cannot overflow an index
/// computation. A table of exactly `m` points has a single window, starting
/// at zero.
pub open spec fn searchable(t: Seq<Rat>, m: int) -> bool {
    &&& 2 <= m
    &&& m <= t.len()
    &&& t.len() <= usize::MAX as int / 4
    &&& (monotone_dir(t, true) || monotone_dir(t, false))
}

/// `dj` is the truncated fourth root of `n`, at least one.
pub open spec fn is_jump_threshold(n: int, dj: int) -> bool {
    &&& 1 <= dj
    &&& dj * dj * dj * dj <= n
    &&& n < (dj + 1) * (dj + 1) * (dj + 1) * (dj + 1)
}

// ---------------------------------------------------------------------------
// Order lemmas on tables.
// ---------------------------------------------------------------------------

/// Directed order is transitive (weak form).
proof fn lemma_le_dir_trans(asc: bool, a: (int, int), b: (int, int), c: (int, int))
    requires
        a.1 >= 1,
        b.1 >= 1,
        c.1 >= 1,
        le_dir(asc, a, b),
        le_dir(asc, b, c),
    ensures
        le_dir(asc, a, c),
{
    if asc {
        lemma_rat_le_le_trans(a, b, c);
    } else {
        lemma_rat_le_le_trans(c, b, a);
    }
}

/// Entries of a strictly monotone table are ordered pairwise.
pub proof fn lemma_monotone_pairs(t: Seq<Rat>, asc: bool, i: int, j: int)
    requires
        wf_table(t),
        monotone_dir(t, asc),
        0 <= i <= j < t.len(),
    ensures
        le_dir(asc, t[i]@, t[j]@),
        i < j ==> lt_dir(asc, t[i]@, t[j]@),
    decreases j - i,
{
    if i == j {
        // reflexivity of le_dir
    } else {
        lemma_monotone_pairs(t, asc, i, j - 1);
        assert(lt_dir(asc, t[j - 1]@, t[j]@));
        if asc {
            lemma_rat_le_lt_trans(t[i]@, t[j - 1]@, t[j]@);
        } else {
            lemma_rat_lt_le_trans(t[j]@, t[j - 1]@, t[i]@);
        }
    }
}

/// Once the query is strictly before an entry (in table direction), it is
/// strictly before every later entry too.
proof fn lemma_not_upper_side_step(t: Seq<Rat>, asc: bool, x: (int, int), i: int)
    requires
        wf_table(t),
        monotone_dir(t, asc),
        x.1 >= 1,
        0 <= i,
        i + 1 < t.len(),
        !upper_side(x, t[i]@, asc),
    ensures
        !upper_side(x, t[i + 1]@, asc),
{
    if asc {
        // x < t[i] < t[i+1]
        lemma_rat_lt_le_trans(x, t[i]@, t[i + 1]@);
    } else {
        // t[i+1] < t[i] <= x
        lemma_rat_lt_le_trans(t[i + 1]@, t[i]@, x);
    }
}

/// The raw bracket is unique: the locator's answer does not depend on the
/// path (full bisection or hunt) that found it.
pub proof fn lemma_raw_bracket_unique(t: Seq<Rat>, asc: bool, x: (int, int), l1: int, l2: int)
    requires
        wf_table(t),
        monotone_dir(t, asc),
        x.1 >= 1,
        is_raw_bracket(t, asc, x, l1),
        is_raw_bracket(t, asc, x, l2),
    ensures
        l1 == l2,
{
    if l1 < l2 {
        lemma_raw_bracket_below(t, asc, x, l1, l2);
    }
    if l2 < l1 {
        lemma_raw_bracket_below(t, asc, x, l2, l1);
    }
}

/// Helper for uniqueness: no index above a raw bracket is one too.
proof fn lemma_raw_bracket_below(t: Seq<Rat>, asc: bool, x: (int, int), la: int, lb: int)
    requires
        wf_table(t),
        monotone_dir(t, asc),
        x.1 >= 1,
        is_raw_bracket(t, asc, x, la),
        la < lb,
    ensures
        !is_raw_bracket(t, asc, x, lb),
{
    if is_raw_bracket(t, asc, x, lb) {
        // la < lb <= len - 2, so la is not the last bracket and lb is not
        // the first; the query would sit both before t[la+1] and past t[lb]
        assert(!upper_side(x, t[la + 1]@, asc));
        assert(upper_side(x, t[lb]@, asc));
        lemma_monotone_pairs(t, asc, la + 1, lb);
        if asc {
            // x < t[la+1] <= t[lb] <= x
            lemma_rat_lt_le_trans(x, t[la + 1]@, t[lb]@);
        } else {
            // x < t[lb] <= t[la+1] <= x
            lemma_rat_lt_le_trans(x, t[lb]@, t[la + 1]@);
        }
        assert(false);
    }
}

/// From a raw bracket, the clamped window of `m + 1` points encloses every
/// in-range query.
proof fn lemma_clamped_window(t: Seq<Rat>, asc: bool, x: (int, int), l: int, m: int)
    requires
        wf_table(t),
        monotone_dir(t, asc),
        x.1 >= 1,
        is_raw_bracket(t, asc, x, l),
        2 <= m,
        m + 1 <= t.len(),
    ensures
        0 <= clamp_window(l, t.len() as int, m) <= t.len() - m - 1,
        in_range_dir(t, asc, x) ==> le_dir(asc, t[clamp_window(l, t.len() as int, m)]@, x),
        in_range_dir(t, asc, x) ==> le_dir(
            asc,
            x,
            t[clamp_window(l, t.len() as int, m) + m]@,
        ),
{
    let n = t.len() as int;
    let j = clamp_window(l, n, m);
    assert(0 <= (m - 2) / 2 <= m - 2);
    assert(0 <= j <= n - m - 1);
    assert(j <= l);
    assert(l + 1 <= j + m);
    if in_range_dir(t, asc, x) {
        // the raw pair encloses the query
        assert(le_dir(asc, t[l]@, x)) by {
            if l != 0 {
                assert(upper_side(x, t[l]@, asc));
            }
        }
        assert(le_dir(asc, x, t[l + 1]@)) by {
            if l != n - 2 {
                assert(!upper_side(x, t[l + 1]@, asc));
            }
        }
        lemma_monotone_pairs(t, asc, j, l);
        lemma_le_dir_trans(asc, t[j]@, t[l]@, x);
        lemma_monotone_pairs(t, asc, l + 1, j + m);
        lemma_le_dir_trans(asc, x, t[l + 1]@, t[j + m]@);
    }
}

// ---------------------------------------------------------------------------
// The locator.
// ---------------------------------------------------------------------------

/// State carried between searches while bisecting and hunting.
pub struct BisectHunt1D {
    /// Window size minus one: the window is `m + 1` consecutive points.
    pub m: usize,
    /// Whether the previous query landed near the one before it.
    pub corr: bool,
    /// Whether the table ascends (fixed at construction).
    pub ascend: bool,
    /// Hunting pays off while consecutive brackets differ by less than this.
    pub dj: usize,
    /// The raw bracket of the previous query, if any.
    pub i_save: Option<usize>,
}

/// What one location step guarantees, relating the result `j` and the new
/// state `post` to the previous state `pre`: the result is the clamped raw
/// bracket — a function of table and query alone — and the bookkeeping
/// remembers the raw bracket and whether it was close to the previous one.
pub open spec fn bisect_hunt_post(
    pre: BisectHunt1D,
    post: BisectHunt1D,
    t: Seq<Rat>,
    x: (int, int),
    j: int,
) -> bool {
    let n = t.len() as int;
    let m = pre.m as int;
    let l = raw_bracket(t, pre.ascend, x);
    &&& is_raw_bracket(t, pre.ascend, x, l)
    &&& j == spec_locate(t, pre.ascend, m, x)
    &&& (m + 1 <= n ==> 0 <= j <= n - m - 1)
    &&& (m == n ==> j == 0)
    &&& post.m == pre.m
    &&& post.ascend == pre.ascend
    &&& post.dj == pre.dj
    &&& post.i_save == Some(l as usize)
    &&& post.corr == (match pre.i_save {
        Some(p) => abs(l - p as int) < pre.dj as int,
        None => pre.corr,
    })
    &&& (in_range_dir(t, pre.ascend, x) ==> le_dir(asc_of(pre), t[j]@, x) && le_dir(
        asc_of(pre),
        x,
        t[if m + 1 <= n {
            j + m
        } else {
            n - 1
        }]@,
    ))
}

/// The direction flag of a locator state.
pub open spec fn asc_of(s: BisectHunt1D) -> bool {
    s.ascend
}

impl BisectHunt1D {
    /// The locator's state is consistent with table `t`.
    pub open spec fn valid_for(&self, t: Seq<Rat>) -> bool {
        &&& wf_table(t)
        &&& monotone_dir(t, self.ascend)
        &&& 2 <= self.m
        &&& self.m <= t.len()
        &&& t.len() <= usize::MAX as int / 4
        &&& 1 <= self.dj
        &&& (match self.i_save {
            Some(p) => p as int <= t.len() - 2,
            None => true,
        })
        &&& (self.corr ==> self.i_save is Some)
    }

    /// Builds a locator for `table` with a window of `m + 1` points.
    ///
    /// Accepts exactly the strictly monotone tables with at least `m`
    /// points (and rejects tables too large for index arithmetic); anything
    /// else is an `InvalidTable` error. A table of exactly `m` points has
    /// the single window starting at zero.
    pub fn new(table: &Vec<Rat>, m: usize) -> (r: Result<BisectHunt1D, InterpError>)
        requires
            wf_table(table@),
        ensures
            r is Ok <==> searchable(table@, m as int),
            r is Err ==> r == Err::<BisectHunt1D, InterpError>(InterpError::InvalidTable),
            r matches Ok(s) ==> s.valid_for(table@) && s.m == m && s.corr == false
                && s.i_save is None && is_jump_threshold(table@.len() as int, s.dj as int)
                && (monotone_dir(table@, true) ==> s.ascend) && (monotone_dir(table@, false)
                ==> !s.ascend),
    {
        let n: usize = table.len();
        if m < 2 || n < m || n > usize::MAX / 4 {
            return Err(InterpError::InvalidTable);
        }
        let asc: bool = table[0].lt(table[n - 1]);
        let mut i: usize = 1;
        while i < n
            invariant
                1 <= i <= n,
                n == table@.len(),
                2 <= n <= usize::MAX / 4,
                wf_table(table@),
                asc == rat_lt(table@[0]@, table@[n - 1]@),
                forall|k: int| 0 <= k < i - 1 ==> lt_dir(asc, #[trigger] table@[k]@, table@[k + 1]@),
            decreases n - i,
        {
            let step_ok: bool = if asc {
                table[i - 1].lt(table[i])
            } else {
                table[i].lt(table[i - 1])
            };
            if !step_ok {
                proof {
                    // neither direction is monotone: the scanned direction
                    // fails here, and the opposite one would contradict the
                    // orientation of the endpoints
                    assert(monotone_dir(table@, asc) ==> lt_dir(
                        asc,
                        table@[i as int - 1]@,
                        table@[i as int]@,
                    ));
                    if monotone_dir(table@, !asc) {
                        lemma_monotone_pairs(table@, !asc, 0, n as int - 1);
                    }
                }
                return Err(InterpError::InvalidTable);
            }
            i = i + 1;
        }
        let dj: usize = fourth_root(n);
        Ok(BisectHunt1D { m, corr: false, ascend: asc, dj, i_save: None })
    }

    /// One location step: hunt (when the previous query was close), then
    /// bisect, then clamp the bracket to a full window.
    fn hunt_bisect(&mut self, table: &Vec<Rat>, x: Rat) -> (j: usize)
        requires
            old(self).valid_for(table@),
            rat_wf(x@),
        ensures
            final(self).valid_for(table@),
            bisect_hunt_post(*old(self), *final(self), table@, x@, j as int),
    {
        let n: usize = table.len();
        let ghost t = table@;
        let ghost asc = self.ascend;

        let mut inc: usize = 1;
        let mut lower: usize;
        let mut upper: usize;

        if !self.corr {
            // uncorrelated: bisect the whole table
            lower = 0;
            upper = n - 1;
        } else {
            let start: usize = match self.i_save {
                Some(p) => p,
                None => 0,
            };
            lower = start;
            upper = start;
            if table[lower].le(x) == self.ascend {
                // hunt upward in doubling steps
                loop
                    invariant_except_break
                        *self == *old(self),
                        old(self).valid_for(t),
                        t == table@,
                        n == t.len(),
                        asc == self.ascend,
                        rat_wf(x@),
                        lower == start,
                        start as int <= n as int - 2,
                        upper == lower,
                        upper_side(x@, t[lower as int]@, asc),
                        1 <= inc,
                        inc as int <= 2 * (n as int - 1),
                    ensures
                        *self == *old(self),
                        bracket_pre(t, asc, x@, lower as int, upper as int),
                    decreases 2 * n - inc,
                {
                    if inc + upper > n - 1 {
                        upper = n - 1;
                        break;
                    }
                    upper = lower + inc;
                    if x.lt(table[upper]) == self.ascend {
                        break;
                    }
                    upper = lower;
                    inc = inc * 2;
                }
            } else {
                // hunt downward in doubling steps
                loop
                    invariant_except_break
                        *self == *old(self),
                        old(self).valid_for(t),
                        t == table@,
                        n == t.len(),
                        asc == self.ascend,
                        rat_wf(x@),
                        lower == upper,
                        upper as int <= n as int - 2,
                        !upper_side(x@, t[upper as int]@, asc),
                        1 <= inc,
                        inc as int <= 2 * (n as int - 1),
                    ensures
                        *self == *old(self),
                        bracket_pre(t, asc, x@, lower as int, upper as int),
                    decreases 2 * n - inc,
                {
                    if inc > lower {
                        lower = 0;
                        proof {
                            if upper as int == 0 {
                                assert(!upper_side(x@, t[0]@, asc));
                            }
                        }
                        break;
                    }
                    lower = lower - inc;
                    if table[lower].le(x) == self.ascend {
                        break;
                    }
                    upper = lower;
                    inc = inc * 2;
                }
            }
        }

        // bisect the identified bracket down to an adjacent pair
        while upper - lower > 1
            invariant
                *self == *old(self),
                old(self).valid_for(t),
                t == table@,
                n == t.len(),
                asc == self.ascend,
                rat_wf(x@),
                bracket_pre(t, asc, x@, lower as int, upper as int),
            decreases upper - lower,
        {
            let mid: usize = (upper + lower) / 2;
            if table[mid].le(x) == self.ascend {
                lower = mid;
            } else {
                upper = mid;
            }
        }

        proof {
            lemma_bracket_pre_to_raw(t, asc, x@, lower as int, upper as int);
            assert(exists|l: int| is_raw_bracket(t, asc, x@, l)) by {
                assert(is_raw_bracket(t, asc, x@, lower as int));
            }
            lemma_raw_bracket_unique(t, asc, x@, raw_bracket(t, asc, x@), lower as int);
            assert(raw_bracket(t, asc, x@) == lower as int);
        }

        // remember the bracket and whether this query was near the last one
        if self.i_save.is_some() {
            let p: usize = match self.i_save {
                Some(p) => p,
                None => 0,
            };
            let diff: usize = if lower >= p {
                lower - p
            } else {
                p - lower
            };
            self.corr = diff < self.dj;
        }
        self.i_save = Some(lower);

        proof {
            if self.m as int + 1 <= n as int {
                lemma_clamped_window(t, asc, x@, lower as int, self.m as int);
            } else {
                // a table of exactly m points has the single window at zero
                assert(clamp_window(lower as int, n as int, self.m as int) == 0);
            }
        }

        // clamp the bracket so the window stays inside the table
        if lower < self.m {
            0
        } else if lower > n - self.m - 1 {
            n - self.m - 1
        } else {
            lower - ((self.m - 2) / 2)
        }
    }
}

/// The bracket invariant the bisection starts from: the window `[lo, hi]`
/// bounds the query except at table ends, and collapses only to `[0, 0]`
/// when the query lies before the whole table.
pub open spec fn bracket_pre(t: Seq<Rat>, asc: bool, x: (int, int), lo: int, hi: int) -> bool {
    &&& 0 <= lo <= hi <= t.len() - 1
    &&& (lo == 0 || upper_side(x, t[lo]@, asc))
    &&& (hi == t.len() - 1 || !upper_side(x, t[hi]@, asc))
    &&& (lo < hi || (lo == 0 && !upper_side(x, t[0]@, asc)))
}

/// Once bisection has narrowed the bracket to width at most one, its lower
/// end is the raw bracket.
proof fn lemma_bracket_pre_to_raw(t: Seq<Rat>, asc: bool, x: (int, int), lo: int, hi: int)
    requires
        wf_table(t),
        monotone_dir(t, asc),
        x.1 >= 1,
        t.len() >= 2,
        bracket_pre(t, asc, x, lo, hi),
        hi - lo <= 1,
    ensures
        is_raw_bracket(t, asc, x, lo),
{
    if lo < hi {
        assert(hi == lo + 1);
    } else {
        assert(lo == 0 && !upper_side(x, t[0]@, asc));
        if t.len() >= 3 {
            lemma_not_upper_side_step(t, asc, x, 0);
        }
    }
}

/// Truncated fourth root, used for the hunt's jump threshold.
fn fourth_root(n: usize) -> (r: usize)
    requires
        1 <= n,
    ensures
        is_jump_threshold(n as int, r as int),
{
    let mut k: usize = 1;
    while k < 65536 && pow4_le(k + 1, n)
        invariant
            1 <= k <= 65536,
            (k as int) * (k as int) * (k as int) * (k as int) <= n as int,
        decreases 65536 - k,
    {
        k = k + 1;
    }
    proof {
        if k == 65536 {
            let kk: int = k as int + 1;
            assert(kk * kk * kk * kk > 0xffff_ffff_ffff_ffffint) by (nonlinear_arith)
                requires
                    kk == 65537,
            ;
            assert(usize::MAX as int <= 0xffff_ffff_ffff_ffffint);
        }
    }
    k
}

/// Whether `a` to the fourth power is at most `n`.
fn pow4_le(a: usize, n: usize) -> (r: bool)
    requires
        a <= 131072,
    ensures
        r == ((a as int) * (a as int) * (a as int) * (a as int) <= n as int),
{
    let aa: u128 = a as u128;
    proof {
        assert((aa as int) * (aa as int) <= 0x4_0000_0000int) by (nonlinear_arith)
            requires
                0 <= aa as int <= 131072,
        ;
    }
    let sq: u128 = aa * aa;
    proof {
        assert((sq as int) * (sq as int) <= 0x10_0000_0000_0000_0000_0000int) by (nonlinear_arith)
            requires
                0 <= sq as int <= 0x4_0000_0000int,
        ;
    }
    let p: u128 = sq * sq;
    proof {
        assert((sq as int) * (sq as int) == (a as int) * (a as int) * (a as int) * (a as int))
            by (nonlinear_arith)
            requires
                sq as int == (a as int) * (a as int),
        ;
    }
    p <= n as u128
}

// ---------------------------------------------------------------------------
// The search capability.
// ---------------------------------------------------------------------------

/// A stateful table locator: maps a query to the start of an interpolation
/// window, remembering whatever it likes in between.
pub trait Search: Sized {
    /// The locator's state is consistent with table `t`.
    spec fn search_valid_for(&self, t: Seq<Rat>) -> bool;

    /// What one location step guarantees about its result and the new state.
    spec fn search_post(&self, pre: Self, t: Seq<Rat>, x: (int, int), j: int) -> bool;

    /// Locates the interpolation window for `x` in `table`.
    fn locate(&mut self, table: &Vec<Rat>, x: Rat) -> (j: usize)
        requires
            old(self).search_valid_for(table@),
            rat_wf(x@),
        ensures
            final(self).search_valid_for(table@),
            final(self).search_post(*old(self), table@, x@, j as int),
    ;
}

impl Search for BisectHunt1D {
    open spec fn search_valid_for(&self, t: Seq<Rat>) -> bool {
        self.valid_for(t)
    }

    open spec fn search_post(&self, pre: Self, t: Seq<Rat>, x: (int, int), j: int) -> bool {
        bisect_hunt_post(pre, *self, t, x, j)
    }

    fn locate(&mut self, table: &Vec<Rat>, x: Rat) -> (j: usize) {
        self.hunt_bisect(table, x)
    }
}

} // verus!
