//! Exact non-negative ratios.
use vstd::prelude::*;
use crate::split::Milli;

verus! {

/// The value `num / den`.
#[derive(Clone, Copy, Debug, PartialEq, Eq, Structural)]
pub struct Ratio {
    /// Numerator.
    pub num: u128,
    /// Denominator, never zero.
    pub den: u128,
}

/// Zero.
pub open spec fn zero() -> Ratio {
    Ratio { num: 0, den: 1 }
}

/// One.
pub open spec fn one() -> Ratio {
    Ratio { num: 1, den: 1 }
}

/// `count / total`, or zero when there is nothing to share.
pub open spec fn share_of(count: int, total: int) -> Ratio {
    if total == 0 {
        zero()
    } else {
        Ratio { num: count as u128, den: total as u128 }
    }
}

/// A value of `num / den` on the ramp from `lo` to `hi` thousandths: zero below
/// the ramp, one above it, and `(value - lo) / (hi - lo)` on it. A ramp of no
/// length is a step at `lo`.
pub open spec fn ramp_of(num: int, den: int, lo: int, hi: int) -> Ratio {
    if hi <= lo {
        if 1000 * num >= lo * den {
            one()
        } else {
            zero()
        }
    } else if 1000 * num <= lo * den {
        zero()
    } else if 1000 * num >= hi * den {
        one()
    } else {
        Ratio { num: (1000 * num - lo * den) as u128, den: ((hi - lo) * den) as u128 }
    }
}

/// `count / total`.
pub fn share(count: u64, total: u64) -> (r: Ratio)
    ensures
        r == share_of(count as int, total as int),
        r.den > 0,
        count <= total ==> r.num <= r.den,
        r.num <= u64::MAX,
        r.den <= u64::MAX,
{
    if total == 0 {
        Ratio { num: 0, den: 1 }
    } else {
        Ratio { num: count as u128, den: total as u128 }
    }
}

/// Places a value on a ramp.
pub fn ramp(num: u128, den: u128, lo: Milli, hi: Milli) -> (r: Ratio)
    requires
        0 < den <= 0x10_0000_0000,
        num <= 0x10_0000_0000,
    ensures
        r == ramp_of(num as int, den as int, lo as int, hi as int),
        0 < r.den <= 0x10_0000_0000 * 0xffff_ffff,
        r.num <= r.den,
{
    assert(lo * den <= 0xffff_ffff * 0x10_0000_0000) by (nonlinear_arith)
        requires
            lo <= 0xffff_ffff,
            den <= 0x10_0000_0000,
    ;
    assert(hi * den <= 0xffff_ffff * 0x10_0000_0000) by (nonlinear_arith)
        requires
            hi <= 0xffff_ffff,
            den <= 0x10_0000_0000,
    ;
    if hi <= lo {
        if 1000 * num >= lo as u128 * den {
            Ratio { num: 1, den: 1 }
        } else {
            Ratio { num: 0, den: 1 }
        }
    } else if 1000 * num <= lo as u128 * den {
        Ratio { num: 0, den: 1 }
    } else if 1000 * num >= hi as u128 * den {
        Ratio { num: 1, den: 1 }
    } else {
        assert((hi - lo) * den == hi * den - lo * den && (hi - lo) * den >= den) by (nonlinear_arith)
            requires
                lo < hi,
                0 < den,
        ;
        Ratio { num: 1000 * num - lo as u128 * den, den: (hi - lo) as u128 * den }
    }
}

/// A larger value is never lower on a ramp.
pub proof fn ramp_is_monotone(a: int, b: int, den: int, lo: int, hi: int)
    requires
        0 <= a <= b,
        b <= u64::MAX,
        0 < den <= u64::MAX,
        0 <= lo <= u32::MAX,
        0 <= hi <= u32::MAX,
    ensures
        ramp_of(a, den, lo, hi).num * ramp_of(b, den, lo, hi).den <= ramp_of(b, den, lo, hi).num
            * ramp_of(a, den, lo, hi).den,
{
    let x = ramp_of(a, den, lo, hi);
    let y = ramp_of(b, den, lo, hi);
    if lo < hi {
        assert((hi - lo) * den == hi * den - lo * den && (hi - lo) * den > 0 && (hi - lo) * den
            <= 0xffff_ffff * 0xffff_ffff_ffff_ffff && lo * den >= 0) by (nonlinear_arith)
            requires
                0 <= lo < hi <= 0xffff_ffff,
                0 < den <= 0xffff_ffff_ffff_ffff,
        ;
    }
    assert(x.num * y.den <= y.num * x.den) by (nonlinear_arith)
        requires
            x.num == 0 || (y.num == y.den && x.num <= x.den) || (x.den == y.den && x.num <= y.num),
    ;
}

/// A ramp is nothing up to its low end, everything from its high end on, and in
/// between the way from the low end as a part of the way between them.
pub proof fn ramp_measures_the_way(num: int, den: int, lo: int, hi: int, r: Ratio)
    requires
        0 <= num <= 0x10_0000_0000,
        0 < den <= 0x10_0000_0000,
        0 <= lo < hi <= u32::MAX,
        r == ramp_of(num, den, lo, hi),
    ensures
        r.den > 0,
        1000 * num <= lo * den ==> r.num == 0,
        1000 * num >= hi * den ==> r.num == r.den,
        lo * den <= 1000 * num <= hi * den ==> r.num * ((hi - lo) * den) == (1000 * num - lo * den) * r.den,
{
    let span = (hi - lo) * den;
    assert(hi * den - lo * den == span && 0 < span <= 0xffff_ffff * 0x10_0000_0000) by (nonlinear_arith)
        requires
            span == (hi - lo) * den,
            0 <= lo < hi <= 0xffff_ffff,
            0 < den <= 0x10_0000_0000,
    ;
    assert(lo * den >= 0) by (nonlinear_arith)
        requires
            lo >= 0,
            den > 0,
    ;
    if lo * den < 1000 * num < hi * den {
        let up = 1000 * num - lo * den;
        assert(r.num == up && r.den == span);
        assert(r.num * span == up * r.den) by (nonlinear_arith)
            requires
                r.num == up,
                r.den == span,
        ;
    } else {
        assert(0 * span == 0 && 1 * span == span);
        assert(r.den == 1);
        let up = 1000 * num - lo * den;
        assert(up * 1 == up);
        assert(r.num * span == (if r.num == 0 {
            0
        } else {
            span
        })) by (nonlinear_arith)
            requires
                r.num == 0 || r.num == 1,
        ;
        assert(up * r.den == up) by (nonlinear_arith)
            requires
                r.den == 1,
        ;
    }
}

/// A share of nothing is nothing; any other is the count over the total.
pub proof fn share_is_count_over_total(count: int, total: int, r: Ratio)
    requires
        0 <= count <= u64::MAX,
        0 <= total <= u64::MAX,
        r == share_of(count, total),
    ensures
        r.den > 0,
        total > 0 ==> r.num * total == count * r.den,
        total == 0 ==> r.num == 0,
{
    if total > 0 {
        assert(r.num * total == count * r.den) by (nonlinear_arith)
            requires
                r.num == count,
                r.den == total,
        ;
    }
}

} // verus!
