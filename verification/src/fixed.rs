//! Signed fixed-point numbers with 32 fractional bits.
//!
//! A [`Fixed`] holds an `i64` and stands for that integer divided by `2^32`.
//! Sums, differences and negations are exact unless they leave the range, in
//! which case they saturate. Products, quotients and square roots are rounded
//! toward zero. Every operation is described by a spec function over the raw
//! integers, so a caller can compute by hand what a call returns.

use vstd::prelude::*;

verus! {

/// The raw value that stands for the number one.
pub const ONE_RAW: i64 = 0x1_0000_0000;

/// The raw value nearest to `v` that a `Fixed` can hold.
pub open spec fn saturate(v: int) -> int {
    if v < i64::MIN {
        i64::MIN as int
    } else if v > i64::MAX {
        i64::MAX as int
    } else {
        v
    }
}

/// The quotient of `n` by `d`, rounded toward zero.
pub open spec fn trunc_div(n: int, d: int) -> int
    recommends
        d != 0,
{
    let q = (if n >= 0 { n } else { -n }) / (if d >= 0 { d } else { -d });
    if (n >= 0) == (d >= 0) {
        q
    } else {
        -q
    }
}

/// Rounded division by a positive number keeps the order of the numerators.
pub proof fn lemma_trunc_div_monotone(n1: int, n2: int, d: int)
    requires
        n1 <= n2,
        d > 0,
    ensures
        trunc_div(n1, d) <= trunc_div(n2, d),
{
    if n1 >= 0 {
        vstd::arithmetic::div_mod::lemma_div_is_ordered(n1, n2, d);
    } else if n2 >= 0 {
        vstd::arithmetic::div_mod::lemma_div_is_ordered(0, -n1, d);
        vstd::arithmetic::div_mod::lemma_div_is_ordered(0, n2, d);
    } else {
        vstd::arithmetic::div_mod::lemma_div_is_ordered(-n2, -n1, d);
    }
}

/// `r` is the square root of `n`, rounded down.
pub open spec fn is_floor_sqrt(n: int, r: int) -> bool {
    0 <= r && r * r <= n < (r + 1) * (r + 1)
}

/// The square root of `n`, rounded down (for `n >= 0`).
pub open spec fn floor_sqrt(n: int) -> int
    recommends
        n >= 0,
{
    choose|r: int| is_floor_sqrt(n, r)
}

/// At most one integer is the rounded-down square root of `n`, and
/// `floor_sqrt` names it.
pub proof fn lemma_floor_sqrt_unique(n: int, r: int)
    requires
        is_floor_sqrt(n, r),
    ensures
        floor_sqrt(n) == r,
{
    let s = floor_sqrt(n);
    assert(is_floor_sqrt(n, s));
    assert(s == r) by (nonlinear_arith)
        requires
            0 <= r,
            0 <= s,
            r * r <= n < (r + 1) * (r + 1),
            s * s <= n < (s + 1) * (s + 1),
    {
        if s < r {
            assert((s + 1) * (s + 1) <= r * r);
        }
        if r < s {
            assert((r + 1) * (r + 1) <= s * s);
        }
    }
}

/// Every `n >= 0` has a rounded-down square root, so `floor_sqrt(n)` is one.
pub proof fn lemma_floor_sqrt_exists(n: int)
    requires
        n >= 0,
    ensures
        is_floor_sqrt(n, floor_sqrt(n)),
    decreases n,
{
    if n == 0 {
        assert(is_floor_sqrt(0, 0)) by (nonlinear_arith);
    } else {
        lemma_floor_sqrt_exists(n - 1);
        let r = floor_sqrt(n - 1);
        if (r + 1) * (r + 1) <= n {
            assert(is_floor_sqrt(n, r + 1)) by (nonlinear_arith)
                requires
                    0 <= r,
                    r * r <= n - 1 < (r + 1) * (r + 1),
                    (r + 1) * (r + 1) <= n,
            ;
        } else {
            assert(is_floor_sqrt(n, r));
        }
    }
}

/// The rounded-down square root keeps the order of its arguments.
pub proof fn lemma_floor_sqrt_monotone(a: int, b: int)
    requires
        0 <= a <= b,
    ensures
        floor_sqrt(a) <= floor_sqrt(b),
{
    lemma_floor_sqrt_exists(a);
    lemma_floor_sqrt_exists(b);
    let ra = floor_sqrt(a);
    let rb = floor_sqrt(b);
    assert(ra <= rb) by (nonlinear_arith)
        requires
            0 <= ra,
            0 <= rb,
            ra * ra <= a,
            a <= b,
            b < (rb + 1) * (rb + 1),
    {
        if ra > rb {
            assert(ra * ra >= (rb + 1) * (rb + 1));
        }
    }
}

/// A number `raw / 2^32`.
#[derive(Clone, Copy, Debug, PartialEq, Eq, Structural)]
pub struct Fixed {
    pub raw: i64,
}

impl View for Fixed {
    type V = int;

    /// The raw integer: `2^32` times the number.
    open spec fn view(&self) -> int {
        self.raw as int
    }
}

pub(crate) fn saturate_wide(v: i128) -> (r: i64)
    ensures
        r == saturate(v as int),
{
    if v > i64::MAX as i128 {
        i64::MAX
    } else if v < i64::MIN as i128 {
        i64::MIN
    } else {
        v as i64
    }
}

/// The quotient of `a * 2^32` by `d`, rounded toward zero and saturated.
fn scaled_div(a: i64, d: i64) -> (r: i64)
    requires
        d != 0,
    ensures
        r == saturate(trunc_div(a * ONE_RAW, d as int)),
{
    let n: i128 = (a as i128) * 0x1_0000_0000;
    let un: u128 = if n >= 0 {
        n as u128
    } else {
        (0 - n) as u128
    };
    let ud: u128 = if d >= 0 {
        d as u128
    } else {
        (0 - d as i128) as u128
    };
    let uq: u128 = un / ud;
    assert(uq <= un) by (nonlinear_arith)
        requires
            uq == un / ud,
            ud > 0,
    ;
    let q: i128 = if (n >= 0) == (d >= 0) {
        uq as i128
    } else {
        0 - (uq as i128)
    };
    saturate_wide(q)
}

/// The square root of `n`, rounded down, by bisection.
pub(crate) fn floor_sqrt_wide(n: u128) -> (r: u128)
    ensures
        is_floor_sqrt(n as int, r as int),
        r <= 0xffff_ffff_ffff_ffff,
{
    let mut lo: u128 = 0;
    let mut hi: u128 = 0x1_0000_0000_0000_0000;
    assert(n < hi * hi) by (nonlinear_arith)
        requires
            n <= 0xffff_ffff_ffff_ffff_ffff_ffff_ffff_ffff,
            hi == 0x1_0000_0000_0000_0000,
    ;
    assert(lo * lo <= n) by (nonlinear_arith)
        requires
            lo == 0,
    ;
    while hi - lo > 1
        invariant
            lo < hi <= 0x1_0000_0000_0000_0000,
            lo * lo <= n < hi * hi,
        decreases hi - lo,
    {
        let mid: u128 = lo + (hi - lo) / 2;
        assert(mid * mid <= 0xffff_ffff_ffff_ffff_ffff_ffff_ffff_ffff) by (nonlinear_arith)
            requires
                mid <= 0xffff_ffff_ffff_ffff,
        ;
        if mid * mid <= n {
            lo = mid;
        } else {
            hi = mid;
        }
    }
    assert(hi == lo + 1);
    lo
}

/// A product of two raw values, split into a quotient by `2^32`, rounded
/// down, and what is left.
pub(crate) fn split_product(a: i64, b: i64) -> (r: (i128, i128))
    ensures
        a * b == ONE_RAW * r.0 + r.1,
        0 <= r.1 < ONE_RAW,
        -0x4000_0000_0000_0000_0000_0000 <= r.0 <= 0x4000_0000_0000_0000_0000_0000,
{
    let x: i128 = a as i128;
    let y: i128 = b as i128;
    assert(-0x4000_0000_0000_0000_0000_0000_0000_0000 <= x * y
        <= 0x4000_0000_0000_0000_0000_0000_0000_0000) by (nonlinear_arith)
        requires
            -0x8000_0000_0000_0000 <= x <= 0x8000_0000_0000_0000,
            -0x8000_0000_0000_0000 <= y <= 0x8000_0000_0000_0000,
    ;
    let p: i128 = x * y;
    let q: i128 = p / 0x1_0000_0000;
    let rest: i128 = p - q * 0x1_0000_0000;
    if rest < 0 {
        (q - 1, rest + 0x1_0000_0000)
    } else {
        (q, rest)
    }
}

/// The quotient by `2^32`, rounded toward zero, of `2^32 * q + rest`, for a
/// `rest` that is not negative and below `3 * 2^32`.
pub(crate) fn join_products(q: i128, rest: i128) -> (t: i128)
    requires
        -0x1_0000_0000_0000_0000_0000_0000_0000 <= q <= 0x1_0000_0000_0000_0000_0000_0000_0000,
        0 <= rest < 3 * ONE_RAW,
    ensures
        t == trunc_div(ONE_RAW * q + rest, ONE_RAW as int),
{
    let whole: i128 = q + rest / 0x1_0000_0000;
    let left: i128 = rest % 0x1_0000_0000;
    if whole < 0 && left > 0 {
        whole + 1
    } else {
        whole
    }
}

/// The quotient of `n` by a positive `d`, rounded toward zero.
pub(crate) fn trunc_div_wide(n: i128, d: i128) -> (q: i128)
    requires
        d > 0,
    ensures
        q == trunc_div(n as int, d as int),
{
    n / d
}

/// The quotient of `n` by a positive `d`, rounded toward zero, has the sign
/// of `n` and leaves a remainder below `d` in magnitude, of the sign of `n`.
pub proof fn lemma_trunc_div(n: int, d: int)
    requires
        d > 0,
    ensures
        ({
            let q = trunc_div(n, d);
            &&& n >= 0 ==> q >= 0 && 0 <= n - d * q < d
            &&& n <= 0 ==> q <= 0 && -d < n - d * q <= 0
        }),
{
    let m = if n >= 0 {
        n
    } else {
        -n
    };
    vstd::arithmetic::div_mod::lemma_fundamental_div_mod(m, d);
    vstd::arithmetic::div_mod::lemma_mod_bound(m, d);
    vstd::arithmetic::div_mod::lemma_div_pos_is_pos(m, d);
    let q = m / d;
    assert(d * (-q) == -(d * q)) by (nonlinear_arith);
}

impl Fixed {
    /// The number with the given raw value.
    pub fn from_raw(raw: i64) -> (r: Fixed)
        ensures
            r@ == raw,
    {
        Fixed { raw }
    }

    /// The raw value.
    pub fn raw(self) -> (r: i64)
        ensures
            r == self@,
    {
        self.raw
    }

    /// Zero.
    pub fn zero() -> (r: Fixed)
        ensures
            r@ == 0,
    {
        Fixed { raw: 0 }
    }

    /// One.
    pub fn one() -> (r: Fixed)
        ensures
            r@ == ONE_RAW,
    {
        Fixed { raw: ONE_RAW }
    }

    /// The whole number `n`, which is always in range.
    pub fn from_int(n: i32) -> (r: Fixed)
        ensures
            r@ == n * ONE_RAW,
    {
        Fixed { raw: (n as i64) * ONE_RAW }
    }

    /// The count `n` as a number, saturated.
    pub open spec fn from_u64_spec(n: u64) -> Fixed {
        Fixed { raw: saturate(n * ONE_RAW) as i64 }
    }

    /// The count `n` as a number, saturated.
    pub fn from_u64(n: u64) -> (r: Fixed)
        ensures
            r == Self::from_u64_spec(n),
    {
        if n > 0x7fff_ffff {
            Fixed { raw: i64::MAX }
        } else {
            Fixed { raw: (n as i64) * ONE_RAW }
        }
    }

    /// The fraction `num / den`, rounded toward zero and saturated.
    pub open spec fn from_ratio_spec(num: i64, den: i64) -> Fixed
        recommends
            den != 0,
    {
        Fixed { raw: saturate(trunc_div(num * ONE_RAW, den as int)) as i64 }
    }

    /// The fraction `num / den`, rounded toward zero and saturated.
    pub fn from_ratio(num: i64, den: i64) -> (r: Fixed)
        requires
            den != 0,
        ensures
            r == Self::from_ratio_spec(num, den),
    {
        Fixed { raw: scaled_div(num, den) }
    }

    /// The sum, saturated.
    pub open spec fn add_spec(self, other: Fixed) -> Fixed {
        Fixed { raw: saturate(self@ + other@) as i64 }
    }

    /// The difference, saturated.
    pub open spec fn sub_spec(self, other: Fixed) -> Fixed {
        Fixed { raw: saturate(self@ - other@) as i64 }
    }

    /// The negation, saturated.
    pub open spec fn neg_spec(self) -> Fixed {
        Fixed { raw: saturate(-self@) as i64 }
    }

    /// The absolute value, saturated.
    pub open spec fn abs_spec(self) -> Fixed {
        if self@ >= 0 {
            self
        } else {
            self.neg_spec()
        }
    }

    /// The product, rounded toward zero and saturated.
    pub open spec fn mul_spec(self, other: Fixed) -> Fixed {
        Fixed { raw: saturate(trunc_div(self@ * other@, ONE_RAW as int)) as i64 }
    }

    /// The quotient, rounded toward zero and saturated.
    pub open spec fn div_spec(self, other: Fixed) -> Fixed
        recommends
            other@ != 0,
    {
        Fixed { raw: saturate(trunc_div(self@ * ONE_RAW, other@)) as i64 }
    }

    /// The square root, rounded down.
    pub open spec fn sqrt_spec(self) -> Fixed
        recommends
            self@ >= 0,
    {
        Fixed { raw: floor_sqrt(self@ * ONE_RAW) as i64 }
    }

    /// The smaller of the two.
    pub open spec fn min_spec(self, other: Fixed) -> Fixed {
        if other@ < self@ {
            other
        } else {
            self
        }
    }

    /// The larger of the two.
    pub open spec fn max_spec(self, other: Fixed) -> Fixed {
        if other@ > self@ {
            other
        } else {
            self
        }
    }

    /// The number, moved into `[lo, hi]`.
    pub open spec fn clamp_spec(self, lo: Fixed, hi: Fixed) -> Fixed
        recommends
            lo@ <= hi@,
    {
        if self@ < lo@ {
            lo
        } else if self@ > hi@ {
            hi
        } else {
            self
        }
    }

    /// The square root of zero is zero.
    pub proof fn lemma_sqrt_of_zero()
        ensures
            (Fixed { raw: 0 }).sqrt_spec()@ == 0,
    {
        assert(0int * ONE_RAW == 0);
        assert(is_floor_sqrt(0, 0)) by (nonlinear_arith);
        lemma_floor_sqrt_unique(0, 0);
    }

    /// The square root of a number that is not negative is its rounded-down
    /// root, is not negative and stays below `2^16`.
    pub proof fn lemma_sqrt_spec(self)
        requires
            self@ >= 0,
        ensures
            is_floor_sqrt(self@ * ONE_RAW, self.sqrt_spec()@),
            0 <= self.sqrt_spec()@ < 0x1_0000_0000_0000,
    {
        let n = self@ * ONE_RAW;
        lemma_floor_sqrt_exists(n);
        let r = floor_sqrt(n);
        assert(r < 0x1_0000_0000_0000) by (nonlinear_arith)
            requires
                0 <= r,
                r * r <= n,
                n < 0x1_0000_0000_0000_0000_0000_0000,
        ;
    }

    /// A product with a factor of magnitude at most one does not saturate:
    /// it is no larger in magnitude than the other factor, and differs from
    /// the exact product by less than one raw unit, toward zero.
    pub proof fn lemma_mul_small(self, unit: Fixed)
        requires
            self@ > i64::MIN,
            -ONE_RAW <= unit@ <= ONE_RAW,
        ensures
            ({
                let m = self.mul_spec(unit)@;
                let e = self@ * unit@ - ONE_RAW * m;
                &&& -ONE_RAW < e < ONE_RAW
                &&& self@ * unit@ >= 0 ==> e >= 0
                &&& self@ * unit@ <= 0 ==> e <= 0
                &&& self@ >= 0 ==> -self@ <= m <= self@
                &&& self@ <= 0 ==> self@ <= m <= -self@
            }),
    {
        let a = self@;
        let u = unit@;
        let n = a * u;
        assert(-0x1_0000_0000 * a <= n <= 0x1_0000_0000 * a || 0x1_0000_0000 * a <= n
            <= -0x1_0000_0000 * a) by (nonlinear_arith)
            requires
                n == a * u,
                -0x1_0000_0000 <= u <= 0x1_0000_0000,
        ;
    }

    /// A product of two numbers of at most `2^14` in magnitude does not
    /// saturate: it differs from the exact product by less than one raw
    /// unit, toward zero.
    pub proof fn lemma_mul_error(self, other: Fixed)
        requires
            -0x4000_0000_0000 <= self@ <= 0x4000_0000_0000,
            -0x4000_0000_0000 <= other@ <= 0x4000_0000_0000,
        ensures
            ({
                let m = self.mul_spec(other)@;
                let e = self@ * other@ - ONE_RAW * m;
                &&& -0x1000_0000_0000_0000 <= m <= 0x1000_0000_0000_0000
                &&& -ONE_RAW < e < ONE_RAW
                &&& self@ * other@ >= 0 ==> e >= 0 && m >= 0
                &&& self@ * other@ <= 0 ==> e <= 0 && m <= 0
            }),
    {
        let a = self@;
        let b = other@;
        let n = a * b;
        assert(-0x1000_0000_0000_0000_0000_0000 <= n <= 0x1000_0000_0000_0000_0000_0000)
            by (nonlinear_arith)
            requires
                n == a * b,
                -0x4000_0000_0000 <= a <= 0x4000_0000_0000,
                -0x4000_0000_0000 <= b <= 0x4000_0000_0000,
        ;
    }

    /// A product of a number of at most `2^29` with one of at most two, in
    /// magnitude, does not saturate: it differs from the exact product by
    /// less than one raw unit, toward zero.
    pub proof fn lemma_mul_near_unit(self, other: Fixed)
        requires
            -0x2000_0000_0000_0000 <= self@ <= 0x2000_0000_0000_0000,
            -0x2_0000_0000 <= other@ <= 0x2_0000_0000,
        ensures
            ({
                let m = self.mul_spec(other)@;
                let e = self@ * other@ - ONE_RAW * m;
                &&& -ONE_RAW < e < ONE_RAW
                &&& self@ * other@ >= 0 ==> e >= 0 && m >= 0
                &&& self@ * other@ <= 0 ==> e <= 0 && m <= 0
            }),
    {
        let a = self@;
        let b = other@;
        let n = a * b;
        assert(-0x4000_0000_0000_0000_0000_0000 <= n <= 0x4000_0000_0000_0000_0000_0000)
            by (nonlinear_arith)
            requires
                n == a * b,
                -0x2000_0000_0000_0000 <= a <= 0x2000_0000_0000_0000,
                -0x2_0000_0000 <= b <= 0x2_0000_0000,
        ;
    }

    /// The square of a number of at most `2^14` in magnitude does not
    /// saturate, and is the exact square rounded down.
    pub proof fn lemma_square(self)
        requires
            -0x4000_0000_0000 <= self@ <= 0x4000_0000_0000,
        ensures
            ({
                let sq = self.mul_spec(self)@;
                &&& 0 <= sq <= 0x1000_0000_0000_0000
                &&& ONE_RAW * sq <= self@ * self@ < ONE_RAW * sq + ONE_RAW
            }),
    {
        let a = self@;
        let n = a * a;
        assert(0 <= n <= 0x1000_0000_0000_0000_0000_0000) by (nonlinear_arith)
            requires
                n == a * a,
                -0x4000_0000_0000 <= a <= 0x4000_0000_0000,
        ;
    }

    /// A quotient by a positive number, of at most `2^30` in magnitude, does
    /// not saturate: it has the sign of the dividend, and differs from the
    /// exact quotient by less than one raw unit, toward zero.
    pub proof fn lemma_div_error(self, other: Fixed)
        requires
            other@ > 0,
            -0x4000_0000 * other@ <= self@ <= 0x4000_0000 * other@,
        ensures
            ({
                let q = self.div_spec(other)@;
                let e = self@ * ONE_RAW - other@ * q;
                &&& -0x4000_0000 * ONE_RAW <= q <= 0x4000_0000 * ONE_RAW
                &&& self@ >= 0 ==> q >= 0 && 0 <= e < other@
                &&& self@ <= 0 ==> q <= 0 && -other@ < e <= 0
            }),
    {
        let b = other@;
        let n = if self@ >= 0 {
            self@ * ONE_RAW
        } else {
            -(self@ * ONE_RAW)
        };
        vstd::arithmetic::div_mod::lemma_fundamental_div_mod(n, b);
        vstd::arithmetic::div_mod::lemma_mod_bound(n, b);
        vstd::arithmetic::div_mod::lemma_div_pos_is_pos(n, b);
        let q = n / b;
        assert(q <= 0x4000_0000_0000_0000) by (nonlinear_arith)
            requires
                n == b * q + n % b,
                0 <= n % b < b,
                n <= 0x4000_0000_0000_0000 * b,
                b > 0,
        ;
        assert(b * (-q) == -(b * q)) by (nonlinear_arith);
        assert(trunc_div(self@ * ONE_RAW, b) == if self@ >= 0 {
            q
        } else {
            -q
        });
        assert(self.div_spec(other)@ == trunc_div(self@ * ONE_RAW, b));
    }

    pub fn add(self, other: Fixed) -> (r: Fixed)
        ensures
            r == self.add_spec(other),
    {
        Fixed { raw: saturate_wide(self.raw as i128 + other.raw as i128) }
    }

    pub fn sub(self, other: Fixed) -> (r: Fixed)
        ensures
            r == self.sub_spec(other),
    {
        Fixed { raw: saturate_wide(self.raw as i128 - other.raw as i128) }
    }

    pub fn neg(self) -> (r: Fixed)
        ensures
            r == self.neg_spec(),
    {
        Fixed { raw: saturate_wide(0 - self.raw as i128) }
    }

    pub fn abs(self) -> (r: Fixed)
        ensures
            r == self.abs_spec(),
            r@ >= 0,
    {
        if self.raw >= 0 {
            self
        } else {
            self.neg()
        }
    }

    pub fn mul(self, other: Fixed) -> (r: Fixed)
        ensures
            r == self.mul_spec(other),
    {
        let a: i128 = self.raw as i128;
        let b: i128 = other.raw as i128;
        assert(-0x4000_0000_0000_0000_0000_0000_0000_0000 <= a * b
            <= 0x4000_0000_0000_0000_0000_0000_0000_0000) by (nonlinear_arith)
            requires
                -0x8000_0000_0000_0000 <= a <= 0x8000_0000_0000_0000,
                -0x8000_0000_0000_0000 <= b <= 0x8000_0000_0000_0000,
        ;
        let p: i128 = a * b;
        Fixed { raw: saturate_wide(p / (ONE_RAW as i128)) }
    }

    /// Division; the divisor must not be zero.
    pub fn div(self, other: Fixed) -> (r: Fixed)
        requires
            other@ != 0,
        ensures
            r == self.div_spec(other),
    {
        Fixed { raw: scaled_div(self.raw, other.raw) }
    }

    /// Square root of a number that is not negative.
    pub fn sqrt(self) -> (r: Fixed)
        requires
            self@ >= 0,
        ensures
            r == self.sqrt_spec(),
            is_floor_sqrt(self@ * ONE_RAW, r@),
    {
        let n: u128 = (self.raw as u128) * 0x1_0000_0000;
        let root: u128 = floor_sqrt_wide(n);
        proof {
            lemma_floor_sqrt_unique(n as int, root as int);
            assert(root < 0x1_0000_0000_0000) by (nonlinear_arith)
                requires
                    root * root <= n,
                    n < 0x1_0000_0000_0000_0000_0000_0000,
            ;
        }
        Fixed { raw: root as i64 }
    }

    pub fn min(self, other: Fixed) -> (r: Fixed)
        ensures
            r == self.min_spec(other),
    {
        if other.raw < self.raw {
            other
        } else {
            self
        }
    }

    pub fn max(self, other: Fixed) -> (r: Fixed)
        ensures
            r == self.max_spec(other),
    {
        if other.raw > self.raw {
            other
        } else {
            self
        }
    }

    /// The number moved into `[lo, hi]`.
    pub fn clamp(self, lo: Fixed, hi: Fixed) -> (r: Fixed)
        requires
            lo@ <= hi@,
        ensures
            r == self.clamp_spec(lo, hi),
            lo@ <= r@ <= hi@,
    {
        if self.raw < lo.raw {
            lo
        } else if self.raw > hi.raw {
            hi
        } else {
            self
        }
    }
}

} // verus!
