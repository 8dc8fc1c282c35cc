use vstd::prelude::*;

verus! {

/// Number of parts that make up the whole: a `Fraction` is `parts / ACCURACY`.
pub const ACCURACY: u32 = 1_000_000_000;

/// A rational value in `[0, 1]` with fixed denominator [`ACCURACY`], used for
/// the trading fee and for proportional liquidity shares.
///
/// All operations are exact integer arithmetic; there is no floating point.
/// Multiplying an amount by a fraction rounds to the nearest unit (ties
/// toward zero); combining two fractions rounds down.
#[derive(Clone, Copy, Debug, PartialEq, Eq, Structural)]
pub struct Fraction {
    parts: u32,
}

/// Parts corresponding to `p` percent, capped at 100 percent.
pub open spec fn from_percent_parts(p: int) -> int {
    (if p <= 100 { p } else { 100 }) * 10_000_000
}

/// Parts of the ratio `p / q`, clamped into `[0, 1]`.
///
/// Large denominators are first reduced by `ceil(q / ACCURACY)` so that the
/// final division operates on values no larger than `ACCURACY`; this loses
/// precision in the low digits, exactly as the pool's share bookkeeping does.
pub open spec fn from_rational_parts(p: int, q: int) -> int {
    let acc = ACCURACY as int;
    let qc = if q >= 1 { q } else { 1int };
    let pc = if p <= qc { p } else { qc };
    let f0 = qc / acc + (if qc % acc > 0 { 1int } else { 0int });
    let f = if f0 >= 1 { f0 } else { 1int };
    (pc / f) * acc / (qc / f)
}

/// `x` scaled by `parts / ACCURACY`, rounded to the nearest whole unit with
/// ties toward zero.
pub open spec fn scale_parts(parts: int, x: int) -> int {
    let acc = ACCURACY as int;
    let whole = (x / acc) * parts;
    let num = (x % acc) * parts;
    whole + num / acc + (if 2 * (num % acc) > acc { 1int } else { 0int })
}

/// Parts of the product of two fractions, rounded down.
pub open spec fn combine_parts(a: int, b: int) -> int {
    a * b / (ACCURACY as int)
}

impl Fraction {
    /// The numerator over [`ACCURACY`].
    pub closed spec fn parts(self) -> int {
        self.parts as int
    }

    /// A fraction is valid when it lies in `[0, 1]`.
    pub open spec fn is_valid(self) -> bool {
        self.parts() <= ACCURACY as int
    }

    /// The fraction `p` percent, capped at 100 percent.
    pub fn from_percent(p: u32) -> (r: Fraction)
        ensures
            r.parts() == from_percent_parts(p as int),
            r.is_valid(),
    {
        let capped: u32 = if p <= 100 { p } else { 100 };
        Fraction { parts: capped * 10_000_000 }
    }

    /// The fraction closest to `p / q` under the reduction of
    /// [`from_rational_parts`], clamped into `[0, 1]`.
    pub fn from_rational(p: u128, q: u128) -> (r: Fraction)
        ensures
            r.parts() == from_rational_parts(p as int, q as int),
            r.is_valid(),
    {
        let acc: u128 = ACCURACY as u128;
        let qc: u128 = if q >= 1 { q } else { 1 };
        let pc: u128 = if p <= qc { p } else { qc };
        let f0: u128 = qc / acc + (if qc % acc > 0 { 1 } else { 0 });
        let f: u128 = if f0 >= 1 { f0 } else { 1 };
        proof {
            lemma_reduction_bounds(qc as int, f as int);
        }
        let qr: u128 = qc / f;
        let pr: u128 = pc / f;
        proof {
            vstd::arithmetic::div_mod::lemma_div_is_ordered(
                pc as int,
                qc as int,
                f as int,
            );
            assert(pr * acc <= qr * acc) by (nonlinear_arith)
                requires
                    pr <= qr,
                    acc >= 1;
            assert(qr as int * acc as int / (qr as int) == acc as int) by {
                vstd::arithmetic::div_mod::lemma_div_multiples_vanish(
                    acc as int,
                    qr as int,
                );
            }
            vstd::arithmetic::div_mod::lemma_div_is_ordered(
                (pr * acc) as int,
                (qr * acc) as int,
                qr as int,
            );
        }
        let parts_wide: u128 = pr * acc / qr;
        Fraction { parts: parts_wide as u32 }
    }

    /// Scale `x` by this fraction, rounding to the nearest whole unit with
    /// ties toward zero. The result never exceeds `x`.
    pub fn apply(self, x: u128) -> (r: u128)
        requires
            self.is_valid(),
        ensures
            r == scale_parts(self.parts(), x as int),
            r <= x,
    {
        let acc: u128 = ACCURACY as u128;
        let parts: u128 = self.parts as u128;
        proof {
            lemma_scale_parts_bounds(parts as int, x as int);
            vstd::arithmetic::div_mod::lemma_fundamental_div_mod(x as int, acc as int);
            let quo = x as int / acc as int;
            assert(quo * parts <= quo * acc) by (nonlinear_arith)
                requires
                    0 <= quo,
                    parts <= acc;
            let rem = x as int % acc as int;
            assert(rem * parts < acc * acc) by (nonlinear_arith)
                requires
                    0 <= rem < acc,
                    0 <= parts <= acc;
        }
        let whole: u128 = (x / acc) * parts;
        let rem: u128 = x % acc;
        let num: u128 = rem * parts;
        let corr: u128 = num / acc + (if 2 * (num % acc) > acc { 1 } else { 0 });
        whole + corr
    }

    /// The product of two fractions, rounded down to the nearest part.
    pub fn combine(self, other: Fraction) -> (r: Fraction)
        requires
            self.is_valid(),
            other.is_valid(),
        ensures
            r.parts() == combine_parts(self.parts(), other.parts()),
            r.is_valid(),
    {
        let a: u64 = self.parts as u64;
        let b: u64 = other.parts as u64;
        let acc: u64 = ACCURACY as u64;
        proof {
            assert(a * b <= acc * acc) by (nonlinear_arith)
                requires
                    a <= acc,
                    b <= acc;
            assert((acc as int) * (acc as int) / (acc as int) == acc as int) by {
                vstd::arithmetic::div_mod::lemma_div_multiples_vanish(
                    acc as int,
                    acc as int,
                );
            }
            vstd::arithmetic::div_mod::lemma_div_is_ordered(
                (a * b) as int,
                (acc * acc) as int,
                acc as int,
            );
        }
        let p: u64 = a * b / acc;
        Fraction { parts: p as u32 }
    }

    /// Whether this fraction is exactly zero.
    pub fn is_zero(&self) -> (r: bool)
        ensures
            r <==> self.parts() == 0,
    {
        self.parts == 0
    }
}

/// With `f = max(ceil(qc / ACCURACY), 1)` and `qc >= 1`, the reduced
/// denominator `qc / f` lies in `[1, ACCURACY]`.
proof fn lemma_reduction_bounds(qc: int, f: int)
    requires
        qc >= 1,
        f == {
            let acc = ACCURACY as int;
            let f0 = qc / acc + (if qc % acc > 0 { 1int } else { 0int });
            if f0 >= 1 { f0 } else { 1int }
        },
    ensures
        1 <= f <= qc,
        1 <= qc / f <= ACCURACY as int,
{
    let acc = ACCURACY as int;
    vstd::arithmetic::div_mod::lemma_fundamental_div_mod(qc, acc);
    let quo = qc / acc;
    let rem = qc % acc;
    assert(f >= 1);
    // f <= qc: small qc gives f == 1; otherwise quo + 1 <= qc because acc >= 2.
    if qc < acc {
        assert(quo == 0) by {
            vstd::arithmetic::div_mod::lemma_basic_div(qc, acc);
        }
        assert(f == 1);
    } else {
        assert(quo * acc <= qc) by (nonlinear_arith)
            requires
                qc == acc * quo + rem,
                0 <= rem;
        assert(2 * quo <= quo * acc) by (nonlinear_arith)
            requires
                quo >= 0,
                acc >= 2;
        assert(f <= quo + 1);
        assert(quo >= 1) by (nonlinear_arith)
            requires
                qc == acc * quo + rem,
                0 <= rem < acc,
                qc >= acc;
        assert(quo + 1 <= 2 * quo);
        assert(f <= qc);
    }
    // qc / f >= 1 since 1 <= f <= qc.
    assert(qc / f >= 1) by {
        vstd::arithmetic::div_mod::lemma_div_non_zero(qc, f);
    }
    // qc <= f * acc, hence qc / f <= acc.
    assert(qc <= f * acc) by (nonlinear_arith)
        requires
            qc == acc * quo + rem,
            0 <= rem < acc,
            f >= quo + (if rem > 0 { 1int } else { 0int }),
            f >= 1,
            acc >= 1;
    assert(f * acc / f == acc) by {
        vstd::arithmetic::div_mod::lemma_div_multiples_vanish(acc, f);
    }
    vstd::arithmetic::div_mod::lemma_div_is_ordered(qc, f * acc, f);
}

/// Scaling by a valid fraction stays within `[0, x]`.
pub proof fn lemma_scale_parts_bounds(parts: int, x: int)
    requires
        0 <= parts <= ACCURACY as int,
        0 <= x,
    ensures
        0 <= scale_parts(parts, x) <= x,
{
    let acc = ACCURACY as int;
    vstd::arithmetic::div_mod::lemma_fundamental_div_mod(x, acc);
    let quo = x / acc;
    let rem = x % acc;
    let num = rem * parts;
    assert(quo >= 0) by {
        vstd::arithmetic::div_mod::lemma_div_pos_is_pos(x, acc);
    }
    assert(num >= 0) by (nonlinear_arith)
        requires
            num == rem * parts,
            rem >= 0,
            parts >= 0;
    assert(num / acc >= 0) by {
        vstd::arithmetic::div_mod::lemma_div_pos_is_pos(num, acc);
    }
    assert(quo * parts >= 0) by (nonlinear_arith)
        requires
            quo >= 0,
            parts >= 0;
    // The correction term never exceeds rem.
    let corr = num / acc + (if 2 * (num % acc) > acc { 1int } else { 0int });
    vstd::arithmetic::div_mod::lemma_fundamental_div_mod(num, acc);
    assert(num <= rem * acc) by (nonlinear_arith)
        requires
            parts <= acc,
            rem >= 0,
            num == rem * parts;
    assert(num / acc <= rem) by {
        assert(rem * acc / acc == rem) by {
            vstd::arithmetic::div_mod::lemma_div_multiples_vanish(rem, acc);
        }
        vstd::arithmetic::div_mod::lemma_div_is_ordered(num, rem * acc, acc);
    }
    if 2 * (num % acc) > acc {
        // A strict correction requires num / acc < rem: otherwise num would be
        // an exact multiple of acc and the tie term would vanish.
        assert(num / acc < rem) by {
            if num / acc == rem {
                assert(num == acc * rem + num % acc);
                assert(num % acc > 0);
                assert(num > acc * rem);
                assert(acc * rem == rem * acc) by (nonlinear_arith);
            }
        }
    }
    assert(corr <= rem);
    assert(quo * parts <= quo * acc) by (nonlinear_arith)
        requires
            0 <= quo,
            parts <= acc;
    assert(quo * acc == acc * quo) by (nonlinear_arith);
}

/// Scaling by the whole (`parts == ACCURACY`) is the identity.
pub proof fn lemma_scale_parts_full(x: int)
    requires
        0 <= x,
    ensures
        scale_parts(ACCURACY as int, x) == x,
{
    let acc = ACCURACY as int;
    vstd::arithmetic::div_mod::lemma_fundamental_div_mod(x, acc);
    let quo = x / acc;
    let rem = x % acc;
    assert(quo * acc == acc * quo) by (nonlinear_arith);
    let num = rem * acc;
    assert(num / acc == rem) by {
        vstd::arithmetic::div_mod::lemma_div_multiples_vanish(rem, acc);
    }
    assert(num % acc == 0) by {
        vstd::arithmetic::div_mod::lemma_fundamental_div_mod_converse_mod(
            num,
            acc,
            rem,
            0,
        );
    }
}

/// The ratio of any positive value to itself is the whole.
pub proof fn lemma_from_rational_self(v: int)
    requires
        v >= 1,
    ensures
        from_rational_parts(v, v) == ACCURACY as int,
{
    let acc = ACCURACY as int;
    let f0 = v / acc + (if v % acc > 0 { 1int } else { 0int });
    let f = if f0 >= 1 { f0 } else { 1int };
    lemma_reduction_bounds(v, f);
    let vr = v / f;
    assert(vr * acc / vr == acc) by {
        assert(vr * acc == acc * vr) by (nonlinear_arith);
        vstd::arithmetic::div_mod::lemma_div_multiples_vanish(acc, vr);
    }
}

/// A ratio of nonnegative values always yields a valid fraction.
pub proof fn lemma_from_rational_valid(p: int, q: int)
    requires
        0 <= p,
        0 <= q,
    ensures
        0 <= from_rational_parts(p, q) <= ACCURACY as int,
{
    let acc = ACCURACY as int;
    let qc = if q >= 1 { q } else { 1int };
    let pc = if p <= qc { p } else { qc };
    let f0 = qc / acc + (if qc % acc > 0 { 1int } else { 0int });
    let f = if f0 >= 1 { f0 } else { 1int };
    lemma_reduction_bounds(qc, f);
    let qr = qc / f;
    let pr = pc / f;
    assert(pr >= 0) by {
        vstd::arithmetic::div_mod::lemma_div_pos_is_pos(pc, f);
    }
    assert(pr <= qr) by {
        vstd::arithmetic::div_mod::lemma_div_is_ordered(pc, qc, f);
    }
    assert(pr * acc >= 0) by (nonlinear_arith)
        requires
            pr >= 0,
            acc >= 0;
    assert(pr * acc / acc >= 0) by {
        vstd::arithmetic::div_mod::lemma_div_pos_is_pos(pr * acc, acc);
    }
    assert(from_rational_parts(p, q) >= 0) by {
        vstd::arithmetic::div_mod::lemma_div_pos_is_pos(pr * acc, qr);
    }
    assert(pr * acc <= qr * acc) by (nonlinear_arith)
        requires
            pr <= qr,
            acc >= 1;
    assert(qr * acc / qr == acc) by {
        assert(qr * acc == acc * qr) by (nonlinear_arith);
        vstd::arithmetic::div_mod::lemma_div_multiples_vanish(acc, qr);
    }
    vstd::arithmetic::div_mod::lemma_div_is_ordered(pr * acc, qr * acc, qr);
}

} // verus!
