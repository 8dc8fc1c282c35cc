use vstd::prelude::*;

verus! {

/// The integer square root: the largest `r` with `r * r <= x`.
pub open spec fn sqrt_floor(x: int) -> int {
    choose|r: int| is_sqrt_floor(x, r)
}

/// `r` is the integer square root of `x`.
pub open spec fn is_sqrt_floor(x: int, r: int) -> bool {
    0 <= r && r * r <= x && (r + 1) * (r + 1) > x
}

/// The integer square root exists and is unique, so [`sqrt_floor`] denotes it.
pub proof fn lemma_sqrt_floor_exists(x: int)
    requires
        0 <= x,
    ensures
        is_sqrt_floor(x, sqrt_floor(x)),
    decreases x,
{
    if x == 0 {
        assert(is_sqrt_floor(0, 0)) by (nonlinear_arith);
    } else {
        lemma_sqrt_floor_exists(x - 1);
        let r = sqrt_floor(x - 1);
        if (r + 1) * (r + 1) <= x {
            assert(is_sqrt_floor(x, r + 1)) by (nonlinear_arith)
                requires
                    0 <= r,
                    (r + 1) * (r + 1) <= x,
                    (r + 1) * (r + 1) > x - 1;
        } else {
            assert(is_sqrt_floor(x, r));
        }
    }
}

/// Two integer square roots of the same value coincide.
pub proof fn lemma_sqrt_floor_unique(x: int, r1: int, r2: int)
    requires
        is_sqrt_floor(x, r1),
        is_sqrt_floor(x, r2),
    ensures
        r1 == r2,
{
    assert(r1 == r2) by (nonlinear_arith)
        requires
            0 <= r1,
            0 <= r2,
            r1 * r1 <= x,
            (r1 + 1) * (r1 + 1) > x,
            r2 * r2 <= x,
            (r2 + 1) * (r2 + 1) > x;
}

/// The largest `r` with `r * r <= x`, found by binary search.
pub fn integer_sqrt(x: u128) -> (r: u128)
    ensures
        r as int == sqrt_floor(x as int),
        is_sqrt_floor(x as int, r as int),
{
    let mut lo: u128 = 0;
    let mut hi: u128 = 0xffff_ffff_ffff_ffff;
    // hi + 1 squared exceeds x throughout; lo squared never does.
    proof {
        assert((hi as int + 1) * (hi as int + 1) > u128::MAX as int)
            by (nonlinear_arith)
            requires
                hi as int == 0xffff_ffff_ffff_ffff as int;
    }
    while lo < hi
        invariant
            0 <= lo <= hi,
            hi <= 0xffff_ffff_ffff_ffff,
            lo as int * lo as int <= x as int,
            (hi as int + 1) * (hi as int + 1) > x as int,
        decreases hi - lo,
    {
        let mid: u128 = lo + (hi - lo + 1) / 2;
        proof {
            assert(lo < mid <= hi);
        }
        if mid <= x / mid {
            proof {
                assert(mid as int * mid as int <= x as int) by {
                    vstd::arithmetic::div_mod::lemma_fundamental_div_mod(
                        x as int,
                        mid as int,
                    );
                    let quo = x as int / mid as int;
                    assert(mid as int * mid as int <= mid as int * quo)
                        by (nonlinear_arith)
                        requires
                            mid as int <= quo,
                            mid as int > 0;
                    assert(mid as int * quo <= x as int) by (nonlinear_arith)
                        requires
                            x as int == mid as int * quo + x as int % mid as int,
                            x as int % mid as int >= 0;
                }
            }
            lo = mid;
        } else {
            proof {
                assert(mid as int * mid as int > x as int) by {
                    vstd::arithmetic::div_mod::lemma_fundamental_div_mod(
                        x as int,
                        mid as int,
                    );
                    let quo = x as int / mid as int;
                    assert(mid as int * quo <= mid as int * (mid as int - 1))
                        by (nonlinear_arith)
                        requires
                            quo <= mid as int - 1,
                            mid as int > 0;
                    assert((mid as int * (mid as int - 1) + x as int % mid as int)
                        < mid as int * mid as int) by (nonlinear_arith)
                        requires
                            (x as int % mid as int) < mid as int,
                            mid as int > 0;
                }
            }
            hi = mid - 1;
        }
    }
    proof {
        lemma_sqrt_floor_exists(x as int);
        lemma_sqrt_floor_unique(x as int, lo as int, sqrt_floor(x as int));
    }
    lo
}

/// `a + b` unless the sum exceeds the `u128` range.
pub fn checked_add(a: u128, b: u128) -> (r: Option<u128>)
    ensures
        a + b <= u128::MAX ==> r == Some((a + b) as u128),
        a + b > u128::MAX ==> r is None,
{
    if a <= u128::MAX - b {
        Some(a + b)
    } else {
        None
    }
}

/// `a * b` unless the product exceeds the `u128` range.
pub fn checked_mul(a: u128, b: u128) -> (r: Option<u128>)
    ensures
        a * b <= u128::MAX ==> r == Some((a * b) as u128),
        a * b > u128::MAX ==> r is None,
{
    if b == 0 {
        proof {
            assert(a * b == 0) by (nonlinear_arith)
                requires
                    b == 0;
        }
        Some(0)
    } else if a <= u128::MAX / b {
        proof {
            vstd::arithmetic::div_mod::lemma_fundamental_div_mod(
                u128::MAX as int,
                b as int,
            );
            let quo = u128::MAX as int / b as int;
            assert(a as int * b as int <= quo * b as int) by (nonlinear_arith)
                requires
                    a as int <= quo,
                    b as int > 0;
            assert(quo * b as int <= u128::MAX as int) by (nonlinear_arith)
                requires
                    u128::MAX as int == b as int * quo + u128::MAX as int % b as int,
                    u128::MAX as int % b as int >= 0;
        }
        Some(a * b)
    } else {
        proof {
            vstd::arithmetic::div_mod::lemma_fundamental_div_mod(
                u128::MAX as int,
                b as int,
            );
            let quo = u128::MAX as int / b as int;
            assert(a as int * b as int > u128::MAX as int) by (nonlinear_arith)
                requires
                    a as int >= quo + 1,
                    b as int > 0,
                    u128::MAX as int == b as int * quo + u128::MAX as int % b as int,
                    (u128::MAX as int % b as int) < b as int;
        }
        None
    }
}

} // verus!
