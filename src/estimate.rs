//! The priority estimate: moves taken so far plus a halving-based guess of the moves left.

use vstd::prelude::*;
use crate::ratio::{wide_mul, UnsignedRatio};
use vstd::arithmetic::power2::{pow2, lemma2_to64, lemma_pow2_adds, lemma_pow2_strictly_increases, lemma_pow2_unfold};

verus! {

/// `b * 2^k`.
pub open spec fn scaled(b: int, k: nat) -> int
    decreases k,
{
    if k == 0 {
        b
    } else {
        2 * scaled(b, (k - 1) as nat)
    }
}

/// How many times the number `a / b` is halved before it is at most one
/// (equivalently: how often `b` is doubled while `a` exceeds it).
pub open spec fn halvings(a: int, b: int) -> nat
    decreases (if 0 < b && b < a { a - b } else { 0 }),
{
    if 0 < b && b < a {
        1 + halvings(a, 2 * b)
    } else {
        0
    }
}

/// The number a zero value is raised to before halving: larger for larger targets.
pub open spec fn zero_offset(t: UnsignedRatio) -> int {
    if t.numer as int > 10 * t.denom as int {
        10
    } else if t.numer as int > 5 * t.denom as int {
        5
    } else {
        1
    }
}

/// Estimated total moves for a path of `len` moves holding `v`, toward target `t`.
///
/// A zero value costs one move more and stands in as `zero_offset(t)`. The working value
/// `w` is halved while it exceeds `t`, one move each; then `t` is halved while it exceeds
/// the halved value, one move each. With `w / t == a / b` the first count is
/// `halvings(a, b)`, and after it the ratio `t / w` is `scaled(b, k1) / a`.
/// A zero target leaves nothing to halve toward: the estimate is then the first part alone.
pub open spec fn estimate(len: nat, v: UnsignedRatio, t: UnsignedRatio) -> nat {
    let bonus: nat = if v.numer == 0 { 1 } else { 0 };
    if t.numer == 0 {
        len + bonus
    } else {
        let wn: int = if v.numer == 0 { zero_offset(t) } else { v.numer as int };
        let wd: int = if v.numer == 0 { 1 } else { v.denom as int };
        let a = wn * t.denom;
        let b = t.numer * wd;
        let k1 = halvings(a, b);
        len + bonus + k1 + halvings(scaled(b, k1), a)
    }
}

proof fn lemma_scaled_pos(b: int, k: nat)
    requires
        b > 0,
    ensures
        scaled(b, k) >= b,
    decreases k,
{
    if k > 0 {
        lemma_scaled_pos(b, (k - 1) as nat);
    }
}

/// Doubling `k` times and then once more is doubling `k + 1` times.
proof fn lemma_scaled_step(b: int, k: nat)
    ensures
        scaled(b, k + 1) == 2 * scaled(b, k),
    decreases k,
{
}

/// Starting from `scaled(b, j)`, the count left is the full count less `j`.
proof fn lemma_halvings_shift(a: int, b: int, j: nat)
    requires
        0 < b,
        j <= halvings(a, b),
    ensures
        halvings(a, scaled(b, j)) + j == halvings(a, b),
        j < halvings(a, b) ==> scaled(b, j) < a,
    decreases j,
{
    if j > 0 {
        lemma_halvings_shift(a, b, (j - 1) as nat);
        let x = scaled(b, (j - 1) as nat);
        lemma_scaled_pos(b, (j - 1) as nat);
        lemma_scaled_step(b, (j - 1) as nat);
        assert(scaled(b, j) == 2 * x);
    } else {
        if 0 < halvings(a, b) {
            assert(b < a);
        }
    }
}

/// `halvings(a, b)` doublings of `b` reach `a`, and one fewer stays below it.
proof fn lemma_halvings_reach(a: int, b: int)
    requires
        0 < b,
    ensures
        scaled(b, halvings(a, b)) >= a,
        halvings(a, b) > 0 ==> scaled(b, (halvings(a, b) - 1) as nat) < a,
{
    let h = halvings(a, b);
    lemma_halvings_shift(a, b, h);
    lemma_scaled_pos(b, h);
    let x = scaled(b, h);
    if x < a {
        assert(halvings(a, x) > 0);
    }
    if h > 0 {
        lemma_halvings_shift(a, b, (h - 1) as nat);
    }
}

/// Doubling `b >= 1` a total of `k` times gives at least `2^k`.
proof fn lemma_scaled_ge_pow2(b: int, k: nat)
    requires
        b >= 1,
    ensures
        scaled(b, k) >= pow2(k),
    decreases k,
{
    if k == 0 {
        lemma2_to64();
    } else {
        lemma_scaled_ge_pow2(b, (k - 1) as nat);
        lemma_pow2_unfold(k);
    }
}

/// A doubled value that still fits under `2^128` was doubled fewer than 128 times.
proof fn lemma_scaled_count_bound(b: int, k: nat)
    requires
        b >= 1,
        scaled(b, k) < u64::MAX as int * u64::MAX as int + 1,
    ensures
        k < 128,
{
    lemma_scaled_ge_pow2(b, k);
    if k >= 128 {
        lemma2_to64();
        lemma_pow2_adds(64, 64);
        lemma_pow2_strictly_increases(128, k);
        assert(pow2(128) == 0x1_0000_0000_0000_0000 * 0x1_0000_0000_0000_0000);
    }
}

/// Computes `halvings(a, b)` and whether `b`, doubled that many times, ends above `a`.
fn count_halvings(a: u128, b: u128) -> (r: (u64, bool))
    requires
        0 < b,
        a <= u64::MAX as int * u64::MAX as int,
    ensures
        r.0 == halvings(a as int, b as int),
        r.0 <= 128,
        r.1 == (scaled(b as int, r.0 as nat) > a),
{
    let mut x: u128 = b;
    let mut k: u64 = 0;
    let mut over: bool = false;
    while x < a
        invariant
            0 < b,
            a <= u64::MAX as int * u64::MAX as int,
            k <= 128,
            !over ==> x as int == scaled(b as int, k as nat),
            !over ==> k + halvings(a as int, x as int) == halvings(a as int, b as int),
            over ==> x == a && k == halvings(a as int, b as int) && scaled(b as int, k as nat) > a,
            x >= b,
        decreases a - x,
    {
        proof {
            lemma_scaled_step(b as int, k as nat);
            lemma_scaled_count_bound(b as int, k as nat);
            assert(halvings(a as int, x as int) == 1 + halvings(a as int, 2 * x as int));
        }
        k = k + 1;
        if x > a / 2 {
            over = true;
            x = a;
        } else {
            x = x * 2;
        }
    }
    proof {
        if !over {
            assert(halvings(a as int, x as int) == 0);
        }
    }
    (k, over || x > a)
}

/// Moves a path may hold for its estimate to be computed without overflow.
pub const ESTIMATE_MOVE_LIMIT: usize = 0xFFFF_0000;

/// The stand-in for a zero value: 10 above a target of 10, 5 above 5, else 1.
fn zero_offset_of(t: &UnsignedRatio) -> (r: u64)
    ensures
        r == zero_offset(*t),
{
    if wide_mul(t.numer, 1) > wide_mul(10, t.denom) {
        10
    } else if wide_mul(t.numer, 1) > wide_mul(5, t.denom) {
        5
    } else {
        1
    }
}

/// Computes [`estimate`] for a path of `len` moves holding `v`, toward target `t`.
pub fn heuristic_estimate(len: usize, v: &UnsignedRatio, t: &UnsignedRatio) -> (r: usize)
    requires
        v.wf(),
        t.wf(),
        len <= ESTIMATE_MOVE_LIMIT,
    ensures
        r == estimate(len as nat, *v, *t),
{
    let bonus: usize = if v.numer == 0 { 1 } else { 0 };
    if t.numer == 0 {
        return len + bonus;
    }
    let wn: u64 = if v.numer == 0 { zero_offset_of(t) } else { v.numer };
    let wd: u64 = if v.numer == 0 { 1 } else { v.denom };
    let a = wide_mul(wn, t.denom);
    let b = wide_mul(t.numer, wd);
    proof {
        assert(a > 0) by (nonlinear_arith)
            requires a == wn as int * t.denom as int, wn > 0, t.denom > 0;
        assert(b > 0) by (nonlinear_arith)
            requires b == t.numer as int * wd as int, t.numer > 0, wd > 0;
        assert(a <= u64::MAX as int * u64::MAX as int) by (nonlinear_arith)
            requires a == wn as int * t.denom as int, wn <= u64::MAX, t.denom <= u64::MAX;
        assert(b <= u64::MAX as int * u64::MAX as int) by (nonlinear_arith)
            requires b == t.numer as int * wd as int, t.numer <= u64::MAX, wd <= u64::MAX;
    }
    let (k1, over) = count_halvings(a, b);
    let k2: u64 = if k1 == 0 {
        let (k, _) = count_halvings(b, a);
        k
    } else {
        proof {
            lemma_halvings_reach(a as int, b as int);
            lemma_scaled_step(b as int, (k1 - 1) as nat);
            let s = scaled(b as int, k1 as nat);
            if s > a {
                assert(halvings(s, a as int) == 1 + halvings(s, 2 * a as int));
            }
        }
        if over {
            1
        } else {
            0
        }
    };
    len + bonus + k1 as usize + k2 as usize
}

} // verus!
