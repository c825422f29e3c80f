//! Integer conversions that saturate at the bounds of the target type, or
//! that are only performed on values the target type can hold.

use vstd::prelude::*;

verus! {

/// `x` clamped into `[lo, hi]`.
pub open spec fn clamp(x: int, lo: int, hi: int) -> int {
    if x < lo {
        lo
    } else if x > hi {
        hi
    } else {
        x
    }
}

/// Conversion into `T` that clamps values out of `T`'s range to its nearest bound.
pub trait SaturatingInto<T>: Sized {
    fn saturating_into(self) -> T;
}

impl SaturatingInto<i64> for u64 {
    fn saturating_into(self) -> (r: i64)
        ensures
            r == clamp(self as int, i64::MIN as int, i64::MAX as int),
    {
        if self > i64::MAX as u64 {
            i64::MAX
        } else {
            self as i64
        }
    }
}

impl SaturatingInto<u64> for i64 {
    fn saturating_into(self) -> (r: u64)
        ensures
            r == clamp(self as int, 0, u64::MAX as int),
    {
        if self < 0 {
            0
        } else {
            self as u64
        }
    }
}

impl SaturatingInto<i64> for i128 {
    fn saturating_into(self) -> (r: i64)
        ensures
            r == clamp(self as int, i64::MIN as int, i64::MAX as int),
    {
        if self < i64::MIN as i128 {
            i64::MIN
        } else if self > i64::MAX as i128 {
            i64::MAX
        } else {
            self as i64
        }
    }
}

impl SaturatingInto<u64> for u128 {
    fn saturating_into(self) -> (r: u64)
        ensures
            r == clamp(self as int, 0, u64::MAX as int),
    {
        if self > u64::MAX as u128 {
            u64::MAX
        } else {
            self as u64
        }
    }
}

/// Conversion into `T` of a value that `T` can represent; converting any other
/// value is a logic error.
pub trait AssertInto<T>: Sized {
    /// Whether `T` can represent this value.
    spec fn fits(&self) -> bool;

    fn assert_into(self) -> T
        requires
            self.fits();
}

impl AssertInto<i64> for u64 {
    open spec fn fits(&self) -> bool {
        *self <= i64::MAX
    }

    fn assert_into(self) -> (r: i64)
        ensures
            r == self,
    {
        self as i64
    }
}

impl AssertInto<u64> for i64 {
    open spec fn fits(&self) -> bool {
        *self >= 0
    }

    fn assert_into(self) -> (r: u64)
        ensures
            r == self,
    {
        self as u64
    }
}

impl AssertInto<u32> for usize {
    open spec fn fits(&self) -> bool {
        *self <= u32::MAX
    }

    fn assert_into(self) -> (r: u32)
        ensures
            r == self,
    {
        self as u32
    }
}

impl AssertInto<usize> for u32 {
    open spec fn fits(&self) -> bool {
        *self <= usize::MAX
    }

    fn assert_into(self) -> (r: usize)
        ensures
            r == self,
    {
        self as usize
    }
}

} // verus!
