//! Interval arithmetic on inclusive `i64` / `u64` ranges, as used by the
//! value-range analysis. Arithmetic saturates at the bounds of `i64`.

use vstd::prelude::*;
use std::ops::RangeInclusive;
use vstd::std_specs::cmp::PartialOrdIs;
use vstd::std_specs::cmp::PartialOrdSpec;
use crate::stdlib::{clamp_i64, clamp_u64, abs_int, fx_elements, fx_insert};

verus! {

/// Whether `x` is an element of the inclusive range `r`
/// (the same test that `RangeInclusive::contains` makes).
pub open spec fn in_irange(r: RangeInclusive<i64>, x: int) -> bool {
    r@.start <= x && if r@.exhausted { x < r@.end } else { x <= r@.end }
}

/// Whether `x` is an element of the inclusive range `r`.
pub open spec fn in_urange(r: RangeInclusive<u64>, x: int) -> bool {
    r@.start <= x && if r@.exhausted { x < r@.end } else { x <= r@.end }
}

/// `r` is the fresh (not iterated) range `start..=end`.
pub open spec fn is_irange(r: RangeInclusive<i64>, start: int, end: int) -> bool {
    r@.start == start && r@.end == end && !r@.exhausted
}

/// `r` is the fresh (not iterated) range `start..=end`.
pub open spec fn is_urange(r: RangeInclusive<u64>, start: int, end: int) -> bool {
    r@.start == start && r@.end == end && !r@.exhausted
}

/// The full range `i64::MIN..=i64::MAX`.
pub fn full_range() -> (r: RangeInclusive<i64>)
    ensures
        is_irange(r, i64::MIN as int, i64::MAX as int),
{
    i64::MIN..=i64::MAX
}

/// The empty range `1..=0`.
pub fn empty_range() -> (r: RangeInclusive<i64>)
    ensures
        is_irange(r, 1, 0),
{
    1..=0
}

/// Number of values in the range.
pub fn range_size(r: &RangeInclusive<i64>) -> (n: u128)
    ensures
        n == if r@.exhausted || r@.start > r@.end { 0 } else { r@.end - r@.start + 1 },
{
    if r.is_empty() {
        0
    } else {
        r.end().abs_diff(*r.start()) as u128 + 1
    }
}

/// Two's complement negation of `a` read as an `i64`: the `i64` congruent to `-a`
/// modulo 2^64.
pub fn u64neg(a: u64) -> (r: i64)
    ensures
        (r + a) % 0x1_0000_0000_0000_0000int == 0,
{
    let s = a as i64;
    let r = 0i64.wrapping_sub(s);
    assert((r + a) % 0x1_0000_0000_0000_0000int == 0) by (bit_vector)
        requires
            s == a as i64,
            r == (if 0 - s < i64::MIN { 0 - s + 0x1_0000_0000_0000_0000int } else if 0 - s > i64::MAX { 0 - s - 0x1_0000_0000_0000_0000int } else { 0 - s }),
    ;
    r
}


/// Orders a pair: the smaller element first.
pub fn sort_tuple<T: Ord>(a: T, b: T) -> (r: (T, T))
    ensures
        r == (a, b) || r == (b, a),
        T::obeys_partial_cmp_spec() ==> r == (if a.is_le(&b) { (a, b) } else { (b, a) }),
{
    if a <= b {
        (a, b)
    } else {
        (b, a)
    }
}

/// The absolute values of the elements of `r`, as a range: the tightest range
/// when `r` is fresh and non-empty (see `lemma_abs_range_sound`).
pub fn abs_range(r: &RangeInclusive<i64>) -> (res: RangeInclusive<u64>)
    ensures
        ({
            let a = r@.start as int;
            let b = r@.end as int;
            if (a >= 0) == (b >= 0) {
                is_urange(res, vstd::math::min(abs_int(a), abs_int(b)), vstd::math::max(abs_int(a), abs_int(b)))
            } else {
                is_urange(res, 0, vstd::math::max(abs_int(a), abs_int(b)))
            }
        }),
{
    let a = *r.start();
    let b = *r.end();
    if (a >= 0) == (b >= 0) {
        let (lo, hi) = sort_tuple(a.abs_diff(0), b.abs_diff(0));
        lo..=hi
    } else {
        let x = a.abs_diff(0);
        let y = b.abs_diff(0);
        0..=(if x < y { y } else { x })
    }
}

/// Saturating interval addition.
pub fn add_range(a: &RangeInclusive<i64>, b: &RangeInclusive<i64>) -> (r: RangeInclusive<i64>)
    ensures
        is_irange(r, clamp_i64(a@.start + b@.start), clamp_i64(a@.end + b@.end)),
{
    let start = a.start().saturating_add(*b.start());
    let end = a.end().saturating_add(*b.end());
    start..=end
}

/// Saturating interval subtraction.
pub fn sub_range(a: &RangeInclusive<i64>, b: &RangeInclusive<i64>) -> (r: RangeInclusive<i64>)
    ensures
        is_irange(r, clamp_i64(a@.start - b@.end), clamp_i64(a@.end - b@.start)),
{
    let start = a.start().saturating_sub(*b.end());
    let end = a.end().saturating_sub(*b.start());
    start..=end
}

/// Returns true if the range does not include both negative and positive numbers
pub fn range_is_signless(r: &RangeInclusive<i64>) -> (res: bool)
    ensures
        res == (r@.start >= 0 || r@.end <= 0),
{
    *r.start() >= 0 || *r.end() <= 0
}

/// The sign shared by all elements of the range: 1 when none is negative,
/// -1 when none is positive, 0 otherwise.
pub fn range_sign(r: &RangeInclusive<i64>) -> (res: i64)
    ensures
        res == (if r@.start >= 0 { 1int } else if r@.end <= 0 { -1int } else { 0int }),
{
    if *r.start() >= 0 {
        1
    } else if *r.end() <= 0 {
        -1
    } else {
        0
    }
}

/// Smallest of four integers.
pub open spec fn min4(a: int, b: int, c: int, d: int) -> int {
    vstd::math::min(vstd::math::min(a, b), vstd::math::min(c, d))
}

/// Largest of four integers.
pub open spec fn max4(a: int, b: int, c: int, d: int) -> int {
    vstd::math::max(vstd::math::max(a, b), vstd::math::max(c, d))
}

/// Whether `x * y` lies outside `i64`.
pub open spec fn mul_overflows(x: int, y: int) -> bool {
    x * y > i64::MAX || x * y < i64::MIN
}

/// Saturating interval multiplication. The flag tells whether any of the
/// products of the bounds overflows `i64`.
pub fn mul_range(a: &RangeInclusive<i64>, b: &RangeInclusive<i64>) -> (res: (RangeInclusive<i64>, bool))
    ensures
        ({
            let (a1, a2, b1, b2) = (a@.start as int, a@.end as int, b@.start as int, b@.end as int);
            &&& is_irange(res.0,
                min4(clamp_i64(a1 * b1), clamp_i64(a1 * b2), clamp_i64(a2 * b1), clamp_i64(a2 * b2)),
                max4(clamp_i64(a1 * b1), clamp_i64(a1 * b2), clamp_i64(a2 * b1), clamp_i64(a2 * b2)))
            &&& res.1 == (mul_overflows(a1, b1) || mul_overflows(a1, b2) || mul_overflows(a2, b1) || mul_overflows(a2, b2))
        }),
{
    let candidates: [i64; 4] = [
        a.start().saturating_mul(*b.start()),
        a.start().saturating_mul(*b.end()),
        a.end().saturating_mul(*b.start()),
        a.end().saturating_mul(*b.end()),
    ];
    let may_overflow = a.start().checked_mul(*b.start()).is_none() ||
                       a.start().checked_mul(*b.end()).is_none() ||
                       a.end().checked_mul(*b.start()).is_none() ||
                       a.end().checked_mul(*b.end()).is_none();
    let mut min = candidates[0];
    let mut max = candidates[0];
    let mut i: usize = 1;
    while i < 4
        invariant
            1 <= i <= 4,
            min == vstd::math::min(candidates@[0] as int, if i > 1 { vstd::math::min(candidates@[1] as int, if i > 2 { vstd::math::min(candidates@[2] as int, if i > 3 { candidates@[3] as int } else { candidates@[2] as int }) } else { candidates@[1] as int }) } else { candidates@[0] as int }),
            max == vstd::math::max(candidates@[0] as int, if i > 1 { vstd::math::max(candidates@[1] as int, if i > 2 { vstd::math::max(candidates@[2] as int, if i > 3 { candidates@[3] as int } else { candidates@[2] as int }) } else { candidates@[1] as int }) } else { candidates@[0] as int }),
        decreases 4 - i,
    {
        if candidates[i] < min {
            min = candidates[i];
        }
        if candidates[i] > max {
            max = candidates[i];
        }
        i += 1;
    }
    (min..=max, may_overflow)
}

/// The smallest range holding both ranges (their convex hull).
pub fn union_range(a: &RangeInclusive<i64>, b: &RangeInclusive<i64>) -> (r: RangeInclusive<i64>)
    ensures
        is_irange(r, vstd::math::min(a@.start as int, b@.start as int), vstd::math::max(a@.end as int, b@.end as int)),
{
    let start = if *a.start() < *b.start() { *a.start() } else { *b.start() };
    let end = if *a.end() < *b.end() { *b.end() } else { *a.end() };
    start..=end
}

/// The intersection of two ranges; `1..=0` when it is empty.
pub fn intersect_range(a: &RangeInclusive<i64>, b: &RangeInclusive<i64>) -> (r: RangeInclusive<i64>)
    ensures
        ({
            let start = vstd::math::max(a@.start as int, b@.start as int);
            let end = vstd::math::min(a@.end as int, b@.end as int);
            if start > end { is_irange(r, 1, 0) } else { is_irange(r, start, end) }
        }),
{
    let start = if *a.start() < *b.start() { *b.start() } else { *a.start() };
    let end = if *a.end() < *b.end() { *a.end() } else { *b.end() };
    if start > end {
        1..=0
    } else {
        start..=end
    }
}

/// The part of an unsigned range that fits in `i64`; `1..=0` when none does.
pub fn range_2_i64(r: RangeInclusive<u64>) -> (res: RangeInclusive<i64>)
    ensures
        if r@.start > i64::MAX {
            is_irange(res, 1, 0)
        } else if r@.end > i64::MAX {
            is_irange(res, r@.start as int, i64::MAX as int)
        } else {
            is_irange(res, r@.start as int, r@.end as int)
        },
{
    let a = *r.start();
    let b = *r.end();
    if a > i64::MAX as u64 {
        1..=0
    } else if b > i64::MAX as u64 {
        a as i64..=i64::MAX
    } else {
        a as i64..=b as i64
    }
}


/// Saturating interval addition is sound: the (saturated) sum of any element
/// of `a` and any element of `b` lies in `add_range(a, b)`.
pub proof fn lemma_add_range_sound(a: RangeInclusive<i64>, b: RangeInclusive<i64>, r: RangeInclusive<i64>, x: int, y: int)
    requires
        is_irange(r, clamp_i64(a@.start + b@.start), clamp_i64(a@.end + b@.end)),
        in_irange(a, x),
        in_irange(b, y),
    ensures
        in_irange(r, clamp_i64(x + y)),
{
}

/// Saturating interval subtraction is sound: `x - y` (saturated) lies in
/// `sub_range(a, b)` for every `x` in `a` and `y` in `b`.
pub proof fn lemma_sub_range_sound(a: RangeInclusive<i64>, b: RangeInclusive<i64>, r: RangeInclusive<i64>, x: int, y: int)
    requires
        is_irange(r, clamp_i64(a@.start - b@.end), clamp_i64(a@.end - b@.start)),
        in_irange(a, x),
        in_irange(b, y),
    ensures
        in_irange(r, clamp_i64(x - y)),
{
}

proof fn lemma_mul_between(lo: int, x: int, hi: int, y: int)
    requires
        lo <= x <= hi,
    ensures
        vstd::math::min(lo * y, hi * y) <= x * y <= vstd::math::max(lo * y, hi * y),
{
    if y >= 0 {
        assert(lo * y <= x * y <= hi * y) by (nonlinear_arith)
            requires lo <= x <= hi, y >= 0;
    } else {
        assert(hi * y <= x * y <= lo * y) by (nonlinear_arith)
            requires lo <= x <= hi, y < 0;
    }
}

proof fn lemma_clamp_monotone(p: int, q: int)
    requires
        p <= q,
    ensures
        clamp_i64(p) <= clamp_i64(q),
{
}

/// A product of elements lies between the smallest and largest product of bounds.
proof fn lemma_product_in_corners(a1: int, a2: int, b1: int, b2: int, x: int, y: int)
    requires
        a1 <= x <= a2,
        b1 <= y <= b2,
    ensures
        min4(a1 * b1, a1 * b2, a2 * b1, a2 * b2) <= x * y <= max4(a1 * b1, a1 * b2, a2 * b1, a2 * b2),
{
    lemma_mul_between(a1, x, a2, y);
    lemma_mul_between(b1, y, b2, a1);
    lemma_mul_between(b1, y, b2, a2);
    assert(a1 * y == y * a1) by (nonlinear_arith);
    assert(a2 * y == y * a2) by (nonlinear_arith);
    assert(b1 * a1 == a1 * b1) by (nonlinear_arith);
    assert(b2 * a1 == a1 * b2) by (nonlinear_arith);
    assert(b1 * a2 == a2 * b1) by (nonlinear_arith);
    assert(b2 * a2 == a2 * b2) by (nonlinear_arith);
}

/// Saturating interval multiplication is sound: for `x` in `a` and `y` in `b`,
/// the saturated product lies in the range `mul_range` returns, and when
/// `mul_range` reports no overflow, `x * y` itself fits in `i64`.
pub proof fn lemma_mul_range_sound(a: RangeInclusive<i64>, b: RangeInclusive<i64>, r: RangeInclusive<i64>, may_overflow: bool, x: int, y: int)
    requires
        ({
            let (a1, a2, b1, b2) = (a@.start as int, a@.end as int, b@.start as int, b@.end as int);
            &&& is_irange(r,
                min4(clamp_i64(a1 * b1), clamp_i64(a1 * b2), clamp_i64(a2 * b1), clamp_i64(a2 * b2)),
                max4(clamp_i64(a1 * b1), clamp_i64(a1 * b2), clamp_i64(a2 * b1), clamp_i64(a2 * b2)))
            &&& may_overflow == (mul_overflows(a1, b1) || mul_overflows(a1, b2) || mul_overflows(a2, b1) || mul_overflows(a2, b2))
        }),
        in_irange(a, x),
        in_irange(b, y),
    ensures
        in_irange(r, clamp_i64(x * y)),
        !may_overflow ==> i64::MIN <= x * y <= i64::MAX,
{
    let (a1, a2, b1, b2) = (a@.start as int, a@.end as int, b@.start as int, b@.end as int);
    lemma_product_in_corners(a1, a2, b1, b2, x, y);
    let lo = min4(a1 * b1, a1 * b2, a2 * b1, a2 * b2);
    let hi = max4(a1 * b1, a1 * b2, a2 * b1, a2 * b2);
    lemma_clamp_monotone(lo, x * y);
    lemma_clamp_monotone(x * y, hi);
}

/// The union range holds every element of either range.
pub proof fn lemma_union_range_sound(a: RangeInclusive<i64>, b: RangeInclusive<i64>, r: RangeInclusive<i64>, x: int)
    requires
        is_irange(r, vstd::math::min(a@.start as int, b@.start as int), vstd::math::max(a@.end as int, b@.end as int)),
        in_irange(a, x) || in_irange(b, x),
    ensures
        in_irange(r, x),
{
}

/// The intersection range holds exactly the elements common to both (fresh) ranges.
pub proof fn lemma_intersect_range_exact(a: RangeInclusive<i64>, b: RangeInclusive<i64>, r: RangeInclusive<i64>, x: int)
    requires
        ({
            let start = vstd::math::max(a@.start as int, b@.start as int);
            let end = vstd::math::min(a@.end as int, b@.end as int);
            if start > end { is_irange(r, 1, 0) } else { is_irange(r, start, end) }
        }),
        !a@.exhausted,
        !b@.exhausted,
    ensures
        in_irange(r, x) <==> (in_irange(a, x) && in_irange(b, x)),
{
}

/// The absolute value of every element of a range lies in `abs_range` of it.
pub proof fn lemma_abs_range_sound(r: RangeInclusive<i64>, res: RangeInclusive<u64>, x: int)
    requires
        ({
            let a = r@.start as int;
            let b = r@.end as int;
            if (a >= 0) == (b >= 0) {
                is_urange(res, vstd::math::min(abs_int(a), abs_int(b)), vstd::math::max(abs_int(a), abs_int(b)))
            } else {
                is_urange(res, 0, vstd::math::max(abs_int(a), abs_int(b)))
            }
        }),
        in_irange(r, x),
    ensures
        in_urange(res, abs_int(x)),
{
}

/// `range_2_i64` keeps exactly the elements of the unsigned range that fit in `i64`.
pub proof fn lemma_range_2_i64_exact(r: RangeInclusive<u64>, res: RangeInclusive<i64>, x: int)
    requires
        if r@.start > i64::MAX {
            is_irange(res, 1, 0)
        } else if r@.end > i64::MAX {
            is_irange(res, r@.start as int, i64::MAX as int)
        } else {
            is_irange(res, r@.start as int, r@.end as int)
        },
        !r@.exhausted,
    ensures
        in_irange(res, x) <==> (in_urange(r, x) && x <= i64::MAX),
{
}

/// `range_sign` is the sign every element of the range agrees on.
pub proof fn lemma_range_sign_sound(r: RangeInclusive<i64>, s: int, x: int)
    requires
        s == (if r@.start >= 0 { 1int } else if r@.end <= 0 { -1int } else { 0int }),
        in_irange(r, x),
    ensures
        s == 1 ==> x >= 0,
        s == -1 ==> x <= 0,
        s == 0 ==> r@.start < 0 && r@.end > 0,
{
}


/// `(x, y)` lies in the box `a × b` spanned by the bounds of two ranges.
pub open spec fn in_box(a: RangeInclusive<u64>, b: RangeInclusive<u64>, x: u64, y: u64) -> bool {
    a@.start <= x <= a@.end && b@.start <= y <= b@.end
}

/// `v` is one of the values that `c` yields on the box `a × b`.
pub open spec fn combi_hit(a: RangeInclusive<u64>, b: RangeInclusive<u64>, c: spec_fn(u64, u64) -> Option<u64>, v: u64) -> bool {
    exists|x: u64, y: u64| #[trigger] in_box(a, b, x, y) && c(x, y) == Some(v)
}

/// `r` spans exactly the values that `c` yields on the box `a × b`: from the
/// smallest to the largest of them, or `1..=0` when there are none.
pub open spec fn combi_spans(a: RangeInclusive<u64>, b: RangeInclusive<u64>, c: spec_fn(u64, u64) -> Option<u64>, r: RangeInclusive<u64>) -> bool {
    if exists|v: u64| combi_hit(a, b, c, v) {
        &&& !r@.exhausted
        &&& combi_hit(a, b, c, r@.start)
        &&& combi_hit(a, b, c, r@.end)
        &&& forall|v: u64| combi_hit(a, b, c, v) ==> r@.start <= v <= r@.end
    } else {
        is_urange(r, 1, 0)
    }
}

/// Number of elements of the fresh range `s..=e`, saturated at `u64::MAX`.
pub open spec fn sat_size(s: u64, e: u64) -> int {
    clamp_u64(abs_int(e - s) + 1)
}

proof fn lemma_combi_witness<F: Fn(u64, u64) -> Option<u64>>(
    f: &F,
    a: RangeInclusive<u64>,
    b: RangeInclusive<u64>,
    r: RangeInclusive<u64>,
    c: spec_fn(u64, u64) -> Option<u64>,
)
    requires
        forall|x: u64, y: u64| #[trigger] in_box(a, b, x, y) ==> call_ensures(*f, (x, y), c(x, y)),
        combi_spans(a, b, c, r),
    ensures
        combi_outcome(*f, a, b, r),
{
}

/// `r` is the range spanned by one outcome of calling `f` on every pair of
/// the box `a × b`: for some choice `c` of results that `f` may return on
/// each pair, `r` spans exactly the values in them.
pub open spec fn combi_outcome<F: Fn(u64, u64) -> Option<u64>>(
    f: F,
    a: RangeInclusive<u64>,
    b: RangeInclusive<u64>,
    r: RangeInclusive<u64>,
) -> bool {
    exists|c: spec_fn(u64, u64) -> Option<u64>|
        (forall|x: u64, y: u64| #[trigger] in_box(a, b, x, y) ==> call_ensures(f, (x, y), c(x, y)))
        && #[trigger] combi_spans(a, b, c, r)
}

/// Evaluates `f` on every pair of `a × b`, when there are at most
/// `max_combination` pairs, and returns the range spanned by the values it
/// yields. `None` when there are too many pairs.
pub fn eval_combi_u64<F: Fn(u64, u64) -> Option<u64>>(
    a: RangeInclusive<u64>,
    b: RangeInclusive<u64>,
    max_combination: u64,
    f: F,
) -> (res: Option<RangeInclusive<u64>>)
    requires
        forall|x: u64, y: u64| #[trigger] in_box(a, b, x, y) ==> call_requires(f, (x, y)),
    ensures
        (a@.exhausted || a@.start > a@.end || b@.exhausted || b@.start > b@.end) ==>
            (res matches Some(r) && is_urange(r, 1, 0)),
        !(a@.exhausted || a@.start > a@.end || b@.exhausted || b@.start > b@.end) ==>
            (res is None <==> clamp_u64(sat_size(a@.start, a@.end) * sat_size(b@.start, b@.end)) > max_combination),
        !(a@.exhausted || a@.start > a@.end || b@.exhausted || b@.start > b@.end) ==>
            (res matches Some(r) ==> combi_outcome(f, a, b, r)),
{
    if a.is_empty() || b.is_empty() {
        return Some(1..=0);
    }

    let size_a = a.end().abs_diff(*a.start()).saturating_add(1);
    let size_b = b.end().abs_diff(*b.start()).saturating_add(1);
    assert(size_a == sat_size(a@.start, a@.end));
    assert(size_b == sat_size(b@.start, b@.end));
    if size_a.saturating_mul(size_b) <= max_combination {
        let a_start = *a.start();
        let a_end = *a.end();
        let b_start = *b.start();
        let b_end = *b.end();
        let mut values: rustc_hash::FxHashSet<u64> = rustc_hash::FxHashSet::default();
        let ghost mut chosen: Map<(u64, u64), Option<u64>> = Map::empty();
        let ghost mut src: Map<u64, (u64, u64)> = Map::empty();
        let mut x = a_start;
        loop
            invariant_except_break
                forall|k: (u64, u64)| chosen.dom().contains(k) <==> (in_box(a, b, k.0, k.1) && k.0 < x),
            invariant
                a_start == a@.start, a_end == a@.end, b_start == b@.start, b_end == b@.end,
                a_start <= x <= a_end,
                b_start <= b_end,
                forall|x: u64, y: u64| #[trigger] in_box(a, b, x, y) ==> call_requires(f, (x, y)),
                forall|k: (u64, u64)| #[trigger] chosen.dom().contains(k) ==> call_ensures(f, (k.0, k.1), chosen[k]),
                forall|k: (u64, u64)| #[trigger] chosen.dom().contains(k) && chosen[k] is Some ==>
                    values@.contains(chosen[k]->0),
                forall|v: u64| #[trigger] values@.contains(v) ==>
                    src.dom().contains(v) && chosen.dom().contains(src[v]) && chosen[src[v]] == Some(v),
            ensures
                forall|k: (u64, u64)| chosen.dom().contains(k) <==> in_box(a, b, k.0, k.1),
                forall|k: (u64, u64)| #[trigger] chosen.dom().contains(k) ==> call_ensures(f, (k.0, k.1), chosen[k]),
                forall|k: (u64, u64)| #[trigger] chosen.dom().contains(k) && chosen[k] is Some ==>
                    values@.contains(chosen[k]->0),
                forall|v: u64| #[trigger] values@.contains(v) ==>
                    src.dom().contains(v) && chosen.dom().contains(src[v]) && chosen[src[v]] == Some(v),
            decreases a_end - x,
        {
            let mut y = b_start;
            loop
                invariant_except_break
                    forall|k: (u64, u64)| chosen.dom().contains(k) <==>
                        (in_box(a, b, k.0, k.1) && (k.0 < x || (k.0 == x && k.1 < y))),
                invariant
                    a_start == a@.start, a_end == a@.end, b_start == b@.start, b_end == b@.end,
                    a_start <= x <= a_end,
                    b_start <= y <= b_end,
                    forall|x: u64, y: u64| #[trigger] in_box(a, b, x, y) ==> call_requires(f, (x, y)),
                    forall|k: (u64, u64)| #[trigger] chosen.dom().contains(k) ==> call_ensures(f, (k.0, k.1), chosen[k]),
                    forall|k: (u64, u64)| #[trigger] chosen.dom().contains(k) && chosen[k] is Some ==>
                        values@.contains(chosen[k]->0),
                    forall|v: u64| #[trigger] values@.contains(v) ==>
                        src.dom().contains(v) && chosen.dom().contains(src[v]) && chosen[src[v]] == Some(v),
                ensures
                    forall|k: (u64, u64)| chosen.dom().contains(k) <==> (in_box(a, b, k.0, k.1) && k.0 <= x),
                    forall|k: (u64, u64)| #[trigger] chosen.dom().contains(k) ==> call_ensures(f, (k.0, k.1), chosen[k]),
                    forall|k: (u64, u64)| #[trigger] chosen.dom().contains(k) && chosen[k] is Some ==>
                        values@.contains(chosen[k]->0),
                    forall|v: u64| #[trigger] values@.contains(v) ==>
                        src.dom().contains(v) && chosen.dom().contains(src[v]) && chosen[src[v]] == Some(v),
                decreases b_end - y,
            {
                assert(in_box(a, b, x, y));
                let ghost chosen0 = chosen;
                let ghost src0 = src;
                let ghost vals0 = values@;
                let v = f(x, y);
                proof {
                    assert(!chosen.dom().contains((x, y)));
                    chosen = chosen.insert((x, y), v);
                }
                if let Some(value) = v {
                    fx_insert(&mut values, value);
                    proof {
                        if !vals0.contains(value) {
                            src = src.insert(value, (x, y));
                        }
                    }
                }
                proof {
                    assert forall|w: u64| #[trigger] values@.contains(w) implies
                        src.dom().contains(w) && chosen.dom().contains(src[w]) && chosen[src[w]] == Some(w) by {
                        if vals0.contains(w) {
                            assert(src0.dom().contains(w) && chosen0.dom().contains(src0[w]));
                            assert(src[w] == src0[w]);
                        }
                    }
                }
                if y == b_end {
                    break;
                }
                y += 1;
            }
            if x == a_end {
                break;
            }
            x += 1;
        }
        let ghost c = |x: u64, y: u64| chosen[(x, y)];
        assert forall|x: u64, y: u64| #[trigger] in_box(a, b, x, y) implies call_ensures(f, (x, y), c(x, y)) by {
            assert(chosen.dom().contains((x, y)));
        }
        assert forall|v: u64| combi_hit(a, b, c, v) implies values@.contains(v) by {
            let (x, y) = choose|x: u64, y: u64| #[trigger] in_box(a, b, x, y) && c(x, y) == Some(v);
            assert(chosen.dom().contains((x, y)));
        }
        assert forall|v: u64| values@.contains(v) implies combi_hit(a, b, c, v) by {
            assert(in_box(a, b, src[v].0, src[v].1));
        }
        if values.is_empty() {
            assert forall|v: u64| !combi_hit(a, b, c, v) by {
                if combi_hit(a, b, c, v) {
                    assert(values@.contains(v));
                    assert(!Set::<u64>::empty().contains(v));
                }
            }
            let r = 1..=0;
            assert(combi_spans(a, b, c, r));
            proof { lemma_combi_witness(&f, a, b, r, c); }
            return Some(r);
        }
        let elems = fx_elements(&values);
        if elems.len() == 0 {
            assert(values@ =~= Set::<u64>::empty());
        }
        let mut lo = elems[0];
        let mut hi = elems[0];
        let mut i: usize = 1;
        while i < elems.len()
            invariant
                1 <= i <= elems@.len(),
                elems@.contains(lo),
                elems@.contains(hi),
                forall|j: int| 0 <= j < i ==> lo <= #[trigger] elems@[j] <= hi,
            decreases elems@.len() - i,
        {
            if elems[i] < lo {
                lo = elems[i];
            }
            if elems[i] > hi {
                hi = elems[i];
            }
            i += 1;
        }
        assert(values@.contains(lo));
        assert(values@.contains(hi));
        assert forall|v: u64| combi_hit(a, b, c, v) implies lo <= v <= hi by {
            assert(elems@.to_set().contains(v));
            let j = choose|j: int| 0 <= j < elems@.len() && elems@[j] == v;
        }
        let r = lo..=hi;
        assert(combi_spans(a, b, c, r));
        proof { lemma_combi_witness(&f, a, b, r, c); }
        Some(r)
    } else {
        None
    }
}

} // verus!
