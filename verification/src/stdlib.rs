//! Contracts for the few standard-library functions that this crate calls and
//! that vstd does not already specify. Each states only what the function's
//! documentation says.

use vstd::prelude::*;
use std::ops::RangeInclusive;
use crate::cfg::BlockId;
use vstd::std_specs::cmp::PartialOrdIs;
use vstd::std_specs::cmp::PartialOrdSpec;

verus! {

/// `x` clamped into the range of `i64`.
pub open spec fn clamp_i64(x: int) -> int {
    if x > i64::MAX {
        i64::MAX as int
    } else if x < i64::MIN {
        i64::MIN as int
    } else {
        x
    }
}

/// `x` clamped into the range of `u64`.
pub open spec fn clamp_u64(x: int) -> int {
    if x > u64::MAX {
        u64::MAX as int
    } else if x < 0 {
        0
    } else {
        x
    }
}

/// The absolute value of an integer.
pub open spec fn abs_int(x: int) -> int {
    if x < 0 { -x } else { x }
}

/// `RangeInclusive::start` returns a reference to the lower bound the range holds.
pub assume_specification<Idx>[ RangeInclusive::<Idx>::start ](r: &RangeInclusive<Idx>) -> (ret: &Idx)
    ensures
        *ret == r@.start,
;

/// `RangeInclusive::end` returns a reference to the upper (inclusive) bound the range holds.
pub assume_specification<Idx>[ RangeInclusive::<Idx>::end ](r: &RangeInclusive<Idx>) -> (ret: &Idx)
    ensures
        *ret == r@.end,
;

/// `RangeInclusive::is_empty` is true when the range holds no items: when the
/// bounds are not in order, or after iteration has finished.
pub assume_specification<Idx: PartialOrd<Idx>>[ RangeInclusive::<Idx>::is_empty ](r: &RangeInclusive<Idx>) -> (ret: bool) where Idx: PartialOrd
    ensures
        Idx::obeys_partial_cmp_spec() ==> (ret <==> (r@.exhausted || !r@.start.is_le(&r@.end))),
;

/// `i64::saturating_add`: `x + y`, saturating at the numeric bounds.
pub assume_specification[ <i64>::saturating_add ](x: i64, y: i64) -> (ret: i64)
    ensures
        ret == clamp_i64(x + y),
;

/// `i64::saturating_sub`: `x - y`, saturating at the numeric bounds.
pub assume_specification[ <i64>::saturating_sub ](x: i64, y: i64) -> (ret: i64)
    ensures
        ret == clamp_i64(x - y),
;

/// `i64::saturating_mul`: `x * y`, saturating at the numeric bounds.
pub assume_specification[ <i64>::saturating_mul ](x: i64, y: i64) -> (ret: i64)
    ensures
        ret == clamp_i64(x * y),
;

/// `u64::saturating_mul`: `x * y`, saturating at the numeric bounds.
pub assume_specification[ <u64>::saturating_mul ](x: u64, y: u64) -> (ret: u64)
    ensures
        ret == clamp_u64(x * y),
;

/// `i64::abs_diff`: the absolute difference of the two values, as an unsigned integer.
pub assume_specification[ <i64>::abs_diff ](x: i64, y: i64) -> (ret: u64)
    ensures
        ret == abs_int(x - y),
;

/// `u64::abs_diff`: the absolute difference of the two values.
pub assume_specification[ <u64>::abs_diff ](x: u64, y: u64) -> (ret: u64)
    ensures
        ret == abs_int(x - y),
;

/// `RangeInclusive::clone` (called by derived `Clone` impls); nothing is
/// stated of the copy, since the bounds are copied by `Idx::clone`.
pub assume_specification<Idx: Clone>[ <RangeInclusive<Idx> as Clone>::clone ](r: &RangeInclusive<Idx>) -> RangeInclusive<Idx>;

/// The hasher builder of `rustc_hash::FxHashSet`.
#[verifier::external_type_specification]
#[verifier::external_body]
pub struct ExFxBuildHasher(rustc_hash::FxBuildHasher);

/// `HashSet::insert` on a set hashed by `rustc_hash::FxBuildHasher`:
/// afterwards the set holds `v` besides what it held. (`FxHasher` hashes a
/// `u64` the same way every time, and `u64` equality is plain equality.)
#[verifier::external_body]
pub(crate) fn fx_insert(set: &mut rustc_hash::FxHashSet<u64>, v: u64)
    ensures
        final(set)@ == old(set)@.insert(v),
{
    set.insert(v);
}

/// The elements of the set as `HashSet::iter` yields them: each element
/// once, in an order that nothing here states.
#[verifier::external_body]
pub(crate) fn fx_elements(set: &rustc_hash::FxHashSet<u64>) -> (v: Vec<u64>)
    ensures
        v@.to_set() == set@,
        v@.no_duplicates(),
{
    set.iter().copied().collect()
}

/// `HashMap::insert` on a map hashed by `rustc_hash::FxBuildHasher`:
/// afterwards the map sends `k` to `v` and every other key where it did.
/// (`BlockId`'s equality and hash are derived from its one `u32` field.)
#[verifier::external_body]
pub(crate) fn fx_map_insert<T>(m: &mut rustc_hash::FxHashMap<BlockId, T>, k: BlockId, v: T)
    ensures
        final(m)@ == old(m)@.insert(k, v),
{
    m.insert(k, v);
}

/// The values of the map as `HashMap::values` yields them, in an order that
/// nothing here states: every value is the value of some key, and the value
/// of every key is among them.
#[verifier::external_body]
pub(crate) fn fx_map_values(m: &rustc_hash::FxHashMap<BlockId, i64>) -> (v: Vec<i64>)
    ensures
        crate::analyzer::lists_values(m@, v@),
{
    m.values().copied().collect()
}

/// `String::push` appends the given character to the end of the string.
pub assume_specification[ String::push ](s: &mut String, ch: char)
    ensures
        final(s)@ == old(s)@.push(ch),
;

} // verus!
