//! Normalisation of `start:stop:step` subscripts against a sequence length.

use vstd::prelude::*;

verus! {

/// A subscript `start:stop:step`, each part optional.
#[derive(Clone, Copy, Debug, PartialEq, Eq)]
pub struct SliceArgs {
    pub start: Option<i128>,
    pub stop: Option<i128>,
    pub step: Option<i128>,
}

/// Number of steps of size `step` from `start` that stay strictly before `stop`
/// (after it, for a negative step). Zero when the direction disagrees.
pub open spec fn count_steps(start: int, stop: int, step: int) -> int {
    if step > 0 {
        if start < stop { (stop - start - 1) / step + 1 } else { 0 }
    } else {
        if start > stop { (start - stop - 1) / (-step) + 1 } else { 0 }
    }
}

/// `start + step * k` has not yet reached `stop` in the direction of `step`.
pub open spec fn before_stop(start: int, stop: int, step: int, k: int) -> bool {
    if step > 0 { start + step * k < stop } else { start + step * k > stop }
}

/// `count_steps` counts exactly the `k >= 0` for which `before_stop` holds.
pub proof fn lemma_count_steps(start: int, stop: int, step: int, k: int)
    requires
        step != 0,
        k >= 0,
    ensures
        count_steps(start, stop, step) >= 0,
        k < count_steps(start, stop, step) <==> before_stop(start, stop, step, k),
{
    if step > 0 {
        if start < stop {
            let d = stop - start - 1;
            let q = d / step;
            let r = d % step;
            assert(d == step * q + r && 0 <= r < step) by {
                vstd::arithmetic::div_mod::lemma_fundamental_div_mod(d, step);
            }
            assert(q >= 0) by (nonlinear_arith)
                requires d >= 0, step > 0, d == step * q + r, 0 <= r < step;
            if k <= q {
                assert(step * k <= step * q) by (nonlinear_arith)
                    requires step > 0, k <= q;
            } else {
                assert(step * k >= step * q + step) by (nonlinear_arith)
                    requires step > 0, k >= q + 1;
            }
        } else {
            assert(step * k >= 0) by (nonlinear_arith)
                requires step > 0, k >= 0;
        }
    } else {
        if start > stop {
            let s = -step;
            let d = start - stop - 1;
            let q = d / s;
            let r = d % s;
            assert(d == s * q + r && 0 <= r < s) by {
                vstd::arithmetic::div_mod::lemma_fundamental_div_mod(d, s);
            }
            assert(q >= 0) by (nonlinear_arith)
                requires d >= 0, s > 0, d == s * q + r, 0 <= r < s;
            assert(step * k == -(s * k)) by (nonlinear_arith)
                requires s == -step;
            if k <= q {
                assert(s * k <= s * q) by (nonlinear_arith)
                    requires s > 0, k <= q;
            } else {
                assert(s * k >= s * q + s) by (nonlinear_arith)
                    requires s > 0, k >= q + 1;
            }
        } else {
            assert(step * k <= 0) by (nonlinear_arith)
                requires step < 0, k >= 0;
        }
    }
}

/// Two step counts described by the same condition are equal.
pub proof fn lemma_count_steps_unique(start1: int, stop1: int, step1: int, start2: int, stop2: int, step2: int)
    requires
        step1 != 0,
        step2 != 0,
        forall|k: int| k >= 0 ==>
            (before_stop(start1, stop1, step1, k) <==> before_stop(start2, stop2, step2, k)),
    ensures
        count_steps(start1, stop1, step1) == count_steps(start2, stop2, step2),
{
    let l1 = count_steps(start1, stop1, step1);
    let l2 = count_steps(start2, stop2, step2);
    lemma_count_steps(start1, stop1, step1, 0);
    lemma_count_steps(start2, stop2, step2, 0);
    if l1 < l2 {
        lemma_count_steps(start1, stop1, step1, l1);
        lemma_count_steps(start2, stop2, step2, l1);
    } else if l2 < l1 {
        lemma_count_steps(start1, stop1, step1, l2);
        lemma_count_steps(start2, stop2, step2, l2);
    }
}

/// Resolves one bound: negative values count from the end, then the result is
/// clamped into `[lower, upper]`.
pub open spec fn clamp_bound(v: int, len: int, lower: int, upper: int) -> int {
    if v < 0 {
        if v + len < lower { lower } else { v + len }
    } else {
        if v > upper { upper } else { v }
    }
}

/// The normalised `(start, stop, step)` of a subscript over `len` items.
pub open spec fn slice_indices(s: SliceArgs, len: int) -> (int, int, int) {
    let step: int = match s.step { Some(v) => v as int, None => 1 };
    let lower: int = if step < 0 { -1 } else { 0 };
    let upper: int = if step < 0 { len - 1 } else { len };
    let start: int = match s.start {
        Some(v) => clamp_bound(v as int, len, lower, upper),
        None => if step < 0 { upper } else { lower },
    };
    let stop: int = match s.stop {
        Some(v) => clamp_bound(v as int, len, lower, upper),
        None => if step < 0 { lower } else { upper },
    };
    (start, stop, step)
}

/// A subscript whose step is zero selects nothing and is refused.
pub open spec fn slice_step_is_zero(s: SliceArgs) -> bool {
    s.step == Some(0i128)
}

fn clamp_bound_exec(v: i128, len: i128, lower: i128, upper: i128) -> (r: i128)
    requires
        0 <= len <= u64::MAX,
        -1 <= lower <= 0,
        lower <= upper <= len,
        len - 1 <= upper,
    ensures
        r == clamp_bound(v as int, len as int, lower as int, upper as int),
        lower <= r <= upper,
{
    if v < 0 {
        let w = v + len;
        if w < lower { lower } else { w }
    } else {
        if v > upper { upper } else { v }
    }
}

impl SliceArgs {
    /// The normalised `(start, stop, step)` over a sequence of `len` items;
    /// `None` when the step is zero.
    pub fn indices(&self, len: u64) -> (r: Option<(i128, i128, i128)>)
        ensures
            slice_step_is_zero(*self) <==> r.is_none(),
            r matches Some(t) ==> (t.0 as int, t.1 as int, t.2 as int) == slice_indices(*self, len as int),
            r matches Some(t) ==> -1 <= t.0 <= len && -1 <= t.1 <= len && t.2 != 0,
    {
        let step: i128 = match self.step {
            Some(v) => v,
            None => 1,
        };
        if step == 0 {
            return None;
        }
        let n = len as i128;
        let lower: i128 = if step < 0 { -1 } else { 0 };
        let upper: i128 = if step < 0 { n - 1 } else { n };
        let start = match self.start {
            Some(v) => clamp_bound_exec(v, n, lower, upper),
            None => if step < 0 { upper } else { lower },
        };
        let stop = match self.stop {
            Some(v) => clamp_bound_exec(v, n, lower, upper),
            None => if step < 0 { lower } else { upper },
        };
        Some((start, stop, step))
    }
}

/// The number of items that a normalised subscript selects.
pub fn slice_length(start: i128, stop: i128, step: i128) -> (r: u64)
    requires
        step != 0,
        -1 <= start <= u64::MAX,
        -1 <= stop <= u64::MAX,
        -(u64::MAX as int) <= stop - start <= u64::MAX,
    ensures
        r == count_steps(start as int, stop as int, step as int),
{
    if step > 0 {
        if start < stop {
            let q = (stop - start - 1) / step;
            assert(q <= stop - start - 1) by {
                vstd::arithmetic::div_mod::lemma_div_is_ordered_by_denominator(
                    (stop - start - 1) as int, 1, step as int);
            }
            (q + 1) as u64
        } else {
            0
        }
    } else {
        if start > stop {
            let d = start - stop - 1;
            let q = if d + step < 0 {
                proof {
                    vstd::arithmetic::div_mod::lemma_basic_div(d as int, (-step) as int);
                }
                0
            } else {
                d / (-step)
            };
            assert(q <= d) by {
                vstd::arithmetic::div_mod::lemma_div_is_ordered_by_denominator(d as int, 1, (-step) as int);
            }
            (q + 1) as u64
        } else {
            0
        }
    }
}

/// Every position that a normalised subscript selects lies in `[0, len)`.
pub proof fn lemma_selected_in_bounds(s: SliceArgs, len: int, k: int)
    requires
        !slice_step_is_zero(s),
        len >= 0,
        0 <= k < count_steps(slice_indices(s, len).0, slice_indices(s, len).1, slice_indices(s, len).2),
    ensures
        0 <= slice_indices(s, len).0 + slice_indices(s, len).2 * k < len,
{
    let (a, b, c) = slice_indices(s, len);
    lemma_count_steps(a, b, c, k);
    if c > 0 {
        assert(c * k >= 0) by (nonlinear_arith)
            requires c > 0, k >= 0;
    } else {
        assert(c * k <= 0) by (nonlinear_arith)
            requires c < 0, k >= 0;
    }
}

/// A normalised subscript over `len` items selects at most `len` of them.
pub proof fn lemma_count_at_most_len(s: SliceArgs, len: int)
    requires
        !slice_step_is_zero(s),
        len >= 0,
    ensures
        0 <= count_steps(slice_indices(s, len).0, slice_indices(s, len).1, slice_indices(s, len).2) <= len,
{
    let (a, b, c) = slice_indices(s, len);
    let n = count_steps(a, b, c);
    lemma_count_steps(a, b, c, 0);
    if n > 0 {
        lemma_selected_in_bounds(s, len, n - 1);
        lemma_selected_in_bounds(s, len, 0);
        if c > 0 {
            assert(c * (n - 1) >= n - 1) by (nonlinear_arith)
                requires c >= 1, n >= 1;
        } else {
            assert(c * (n - 1) <= -(n - 1)) by (nonlinear_arith)
                requires c <= -1, n >= 1;
        }
    }
}

/// Position `j` is one of the first `k` positions `a, a + c, a + 2c, ...`.
pub open spec fn in_progression(j: int, a: int, c: int, k: int) -> bool {
    if c > 0 {
        j >= a && (j - a) % c == 0 && (j - a) / c < k
    } else {
        j <= a && (a - j) % (-c) == 0 && (a - j) / (-c) < k
    }
}

/// Which step of the progression reaches position `j`.
pub open spec fn progression_step(j: int, a: int, c: int) -> int {
    if c > 0 { (j - a) / c } else { (a - j) / (-c) }
}

/// Growing the progression by one step adds exactly the position `a + c * k`.
pub proof fn lemma_progression_grow(j: int, a: int, c: int, k: int)
    requires
        c != 0,
        k >= 0,
    ensures
        in_progression(j, a, c, k + 1) <==> (in_progression(j, a, c, k) || j == a + c * k),
        j == a + c * k ==> progression_step(j, a, c) == k,
{
    let d = if c > 0 { c } else { -c };
    let x = if c > 0 { j - a } else { a - j };
    if j == a + c * k {
        assert(x == d * k) by (nonlinear_arith)
            requires c != 0, j == a + c * k, c > 0 ==> (d == c && x == j - a), c < 0 ==> (d == -c && x == a - j);
        vstd::arithmetic::div_mod::lemma_fundamental_div_mod_converse(x, d, k, 0);
    }
    if x >= 0 {
        vstd::arithmetic::div_mod::lemma_fundamental_div_mod(x, d);
        if x % d == 0 && x / d == k {
            assert(j == a + c * k) by (nonlinear_arith)
                requires c != 0, x == d * (x / d) + x % d, x % d == 0, x / d == k,
                    c > 0 ==> (d == c && x == j - a), c < 0 ==> (d == -c && x == a - j);
        }
    }
}

/// Exact test of `in_progression` on machine integers.
pub fn in_progression_exec(j: i128, a: i128, c: i128, k: i128) -> (r: bool)
    requires
        c != 0,
        -0x1_0000_0000_0000_0000 <= j <= 0x1_0000_0000_0000_0000,
        -0x1_0000_0000_0000_0000 <= a <= 0x1_0000_0000_0000_0000,
    ensures
        r == in_progression(j as int, a as int, c as int, k as int),
{
    if c > 0 {
        j >= a && (j - a) % c == 0 && (j - a) / c < k
    } else {
        if c == i128::MIN {
            if j <= a {
                proof {
                    vstd::arithmetic::div_mod::lemma_basic_div((a - j) as int, (-c) as int);
                    vstd::arithmetic::div_mod::lemma_small_mod((a - j) as nat, (-c) as nat);
                }
                return (a - j) == 0 && 0 < k;
            } else {
                return false;
            }
        }
        j <= a && (a - j) % (-c) == 0 && (a - j) / (-c) < k
    }
}

} // verus!
