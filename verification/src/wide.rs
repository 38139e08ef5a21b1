//! Products wider than the widest integer.
use vstd::prelude::*;

verus! {

/// How many values half a wide word has.
pub open spec fn half() -> int {
    0x1_0000_0000_0000_0000int
}

/// How many values a wide word has.
pub open spec fn full() -> int {
    0x1_0000_0000_0000_0000_0000_0000_0000_0000int
}

/// `a * b` as a high and a low word.
pub fn wide_product(a: u128, b: u128) -> (r: (u128, u128))
    ensures
        r.0 * full() + r.1 == a * b,
{
    let a1: u128 = a / 0x1_0000_0000_0000_0000;
    let a0: u128 = a % 0x1_0000_0000_0000_0000;
    let b1: u128 = b / 0x1_0000_0000_0000_0000;
    let b0: u128 = b % 0x1_0000_0000_0000_0000;
    proof {
        small_product(a0 as int, b0 as int);
        small_product(a1 as int, b0 as int);
        small_product(a0 as int, b1 as int);
        small_product(a1 as int, b1 as int);
    }
    let low: u128 = a0 * b0;
    let mid1: u128 = a1 * b0;
    let mid2: u128 = a0 * b1;
    let high: u128 = a1 * b1;
    let carry: u128 = low / 0x1_0000_0000_0000_0000 + mid1 % 0x1_0000_0000_0000_0000 + mid2
        % 0x1_0000_0000_0000_0000;
    let lo: u128 = (carry % 0x1_0000_0000_0000_0000) * 0x1_0000_0000_0000_0000 + low
        % 0x1_0000_0000_0000_0000;
    let more: u128 = mid1 / 0x1_0000_0000_0000_0000 + mid2 / 0x1_0000_0000_0000_0000 + carry
        / 0x1_0000_0000_0000_0000;
    proof {
        expands(a1 as int, a0 as int, b1 as int, b0 as int, half());
        assert(half() * half() == full());
        assert(a * b == high * full() + (mid1 + mid2) * half() + low);
        assert(a * b == (high + more) * full() + lo);
        product_fits(a as int, b as int);
    }
    (high + more, lo)
}

proof fn small_product(x: int, y: int)
    requires
        0 <= x < half(),
        0 <= y < half(),
    ensures
        0 <= x * y <= 0xffff_ffff_ffff_ffff * 0xffff_ffff_ffff_ffff,
{
    assert(0 <= x * y <= 0xffff_ffff_ffff_ffff * 0xffff_ffff_ffff_ffff) by (nonlinear_arith)
        requires
            0 <= x <= 0xffff_ffff_ffff_ffff,
            0 <= y <= 0xffff_ffff_ffff_ffff,
    ;
}

proof fn product_fits(a: int, b: int)
    requires
        0 <= a < full(),
        0 <= b < full(),
    ensures
        a * b < full() * full(),
{
    assert(a * b < full() * full()) by (nonlinear_arith)
        requires
            0 <= a < full(),
            0 <= b < full(),
    ;
}

proof fn expands(a1: int, a0: int, b1: int, b0: int, h: int)
    ensures
        (a1 * h + a0) * (b1 * h + b0) == (a1 * b1) * (h * h) + (a1 * b0 + a0 * b1) * h + a0 * b0,
{
    vstd::arithmetic::mul::lemma_mul_is_distributive_add_other_way(b1 * h + b0, a1 * h, a0);
    vstd::arithmetic::mul::lemma_mul_is_distributive_add(a1 * h, b1 * h, b0);
    vstd::arithmetic::mul::lemma_mul_is_distributive_add(a0, b1 * h, b0);
    vstd::arithmetic::mul::lemma_mul_is_distributive_add_other_way(h, a1 * b0, a0 * b1);
    assert((a1 * h) * (b1 * h) == (a1 * b1) * (h * h)) by (nonlinear_arith);
    assert((a1 * h) * b0 == (a1 * b0) * h) by (nonlinear_arith);
    assert(a0 * (b1 * h) == (a0 * b1) * h) by (nonlinear_arith);
}

/// Whether `a * b < c * d`.
pub fn product_less(a: u128, b: u128, c: u128, d: u128) -> (r: bool)
    ensures
        r == (a * b < c * d),
{
    let (h1, l1) = wide_product(a, b);
    let (h2, l2) = wide_product(c, d);
    h1 < h2 || (h1 == h2 && l1 < l2)
}

} // verus!
