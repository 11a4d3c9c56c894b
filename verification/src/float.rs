//! Double-precision numbers held by their IEEE 754 bit pattern.
//!
//! The engine never does arithmetic on fractions; it only needs to order
//! numbers, to tell whether one is a whole number, and to project integers
//! onto the doubles.  All three are integer computations on the 64 bits of
//! the encoding: one sign bit, eleven exponent bits, fifty-two fraction bits.

use vstd::prelude::*;
use vstd::arithmetic::div_mod::lemma_div_multiples_vanish;
use vstd::arithmetic::div_mod::lemma_fundamental_div_mod;
use vstd::arithmetic::div_mod::lemma_fundamental_div_mod_converse;
use vstd::arithmetic::div_mod::lemma_mod_multiples_basic;
use vstd::arithmetic::div_mod::lemma_small_mod;
use vstd::arithmetic::power2::lemma2_to64;
use vstd::arithmetic::power2::lemma2_to64_rest;
use vstd::arithmetic::power2::lemma_pow2_adds;
use vstd::arithmetic::power2::lemma_pow2_pos;
use vstd::arithmetic::power2::lemma_pow2_strictly_increases;
use vstd::arithmetic::power2::lemma_pow2_unfold;
use vstd::arithmetic::power2::pow2;

verus! {

/// The sign bit of the encoding, `2^63`.
pub const SIGN_BIT: u64 = 0x8000_0000_0000_0000;

/// The encoding of positive infinity: all exponent bits set, fraction zero.
pub const INFINITY_BITS: u64 = 0x7ff0_0000_0000_0000;

/// The implicit leading bit of a normal significand, `2^52`.
pub const HIDDEN_BIT: u64 = 0x0010_0000_0000_0000;

/// A double-precision number, stored as the 64 bits of its encoding.
#[derive(Clone, Copy, Debug)]
pub struct Float64 {
    pub bits: u64,
}

/// A whole number read out of a double.
#[derive(Clone, Copy, Debug, PartialEq, Eq, Structural)]
pub enum Whole {
    /// Zero or a positive whole number that fits `u64`.
    Unsigned(u64),
    /// A negative whole number that fits `i64`.
    Signed(i64),
    /// Not a whole number, or one outside both ranges.
    Neither,
}

/// `n` doubled until bit 63 is set (`n` itself when it is zero).
pub open spec fn left_justified(n: nat) -> nat
    decreases 0x1_0000_0000_0000_0000 - n,
{
    if n == 0 || n >= 0x8000_0000_0000_0000 {
        n
    } else {
        left_justified(2 * n)
    }
}

/// The position of the highest set bit of `n`, for `0 < n < 2^64`.
pub open spec fn top_bit(n: nat) -> int
    decreases 0x1_0000_0000_0000_0000 - n,
{
    if n == 0 || n >= 0x8000_0000_0000_0000 {
        63
    } else {
        top_bit(2 * n) - 1
    }
}

/// The encoding of the double nearest to `n`, ties going to the even
/// significand: the 53 leading bits of `n` are kept, the rest rounds.
pub open spec fn nearest_double(n: u64) -> u64 {
    if n == 0 {
        0
    } else {
        let m = left_justified(n as nat);
        let kept = m / 2048;
        let rest = m % 2048;
        let up: int = if rest > 1024 || (rest == 1024 && kept % 2 == 1) { 1 } else { 0 };
        ((1023 + top_bit(n as nat)) * 0x0010_0000_0000_0000 + (kept - 0x0010_0000_0000_0000) + up) as u64
    }
}

/// `sig` halved `k` times, if every halving is exact.
pub open spec fn halved_exactly(sig: nat, k: nat) -> Option<nat>
    decreases k,
{
    if k == 0 {
        Some(sig)
    } else if sig % 2 == 1 {
        None
    } else {
        halved_exactly(sig / 2, (k - 1) as nat)
    }
}

/// `sig` doubled `k` times.
pub open spec fn doubled(sig: nat, k: nat) -> nat
    decreases k,
{
    if k == 0 { sig } else { doubled(2 * sig, (k - 1) as nat) }
}

pub proof fn lemma_top_bit_range(n: nat)
    requires
        0 < n < 0x1_0000_0000_0000_0000,
    ensures
        0 <= top_bit(n) <= 63,
        0x8000_0000_0000_0000 <= left_justified(n) < 0x1_0000_0000_0000_0000,
        n >= 0x8000_0000_0000_0000 ==> top_bit(n) == 63 && left_justified(n) == n,
        n < 0x8000_0000_0000_0000 ==> top_bit(n) <= 62,
    decreases 0x1_0000_0000_0000_0000 - n,
{
    if n < 0x8000_0000_0000_0000 {
        lemma_top_bit_range(2 * n);
        lemma_top_bit_floor(n);
    }
}

/// Below bit 63 each doubling costs one position, and none goes under zero.
proof fn lemma_top_bit_floor(n: nat)
    requires
        0 < n < 0x8000_0000_0000_0000,
    ensures
        top_bit(n) >= 0,
    decreases 0x1_0000_0000_0000_0000 - n,
{
    vstd::arithmetic::power2::lemma2_to64();
    lemma_top_bit_at_least(n, 0, 1);
}

/// A number that is at least `2^e` has its top bit at `e` or above.
proof fn lemma_top_bit_at_least(n: nat, e: nat, p: nat)
    requires
        0 < n < 0x1_0000_0000_0000_0000,
        e <= 63,
        p == vstd::arithmetic::power2::pow2(e),
        n >= p,
    ensures
        top_bit(n) >= e,
    decreases 63 - e,
{
    vstd::arithmetic::power2::lemma2_to64();
    vstd::arithmetic::power2::lemma2_to64_rest();
    if e == 63 {
    } else if n >= 0x8000_0000_0000_0000 {
    } else {
        vstd::arithmetic::power2::lemma_pow2_unfold(e + 1);
        lemma_top_bit_at_least(2 * n, e + 1, 2 * p);
    }
}

impl Float64 {
    /// Whether the sign bit is set.
    pub open spec fn negative(self) -> bool {
        self.bits >= SIGN_BIT
    }

    /// The encoding without its sign bit.
    pub open spec fn magnitude(self) -> int {
        if self.bits >= SIGN_BIT {
            self.bits - SIGN_BIT
        } else {
            self.bits as int
        }
    }

    /// Not a number: exponent all ones and a non-zero fraction.
    pub open spec fn nan(self) -> bool {
        self.magnitude() > INFINITY_BITS
    }

    /// The place of a number in the order of the doubles.  IEEE 754 lays the
    /// encoding out so that, sign apart, a larger encoding is a larger
    /// number; both zeros share rank zero.
    pub open spec fn rank(self) -> int {
        if self.negative() {
            -self.magnitude()
        } else {
            self.magnitude()
        }
    }

    /// Numeric equality: no NaN on either side, and the same rank.
    pub open spec fn same(self, other: Float64) -> bool {
        !self.nan() && !other.nan() && self.rank() == other.rank()
    }

    /// Numeric `<`: no NaN on either side, and a smaller rank.
    pub open spec fn below(self, other: Float64) -> bool {
        !self.nan() && !other.nan() && self.rank() < other.rank()
    }

    /// The biased exponent field.
    pub open spec fn exponent_field(self) -> int {
        self.magnitude() / 0x0010_0000_0000_0000
    }

    /// The significand of a normal number, hidden bit included.
    pub open spec fn significand(self) -> int {
        self.magnitude() % 0x0010_0000_0000_0000 + 0x0010_0000_0000_0000
    }

    /// The absolute value of the number, if it is a whole number.
    ///
    /// A normal double is `significand * 2^(exponent_field - 1075)`: below
    /// field 1023 it is a fraction, from 1075 on it is the significand
    /// doubled, in between it is whole when the significand can be halved
    /// exactly.  Zero is whole; subnormals, infinities and NaN are not.
    pub open spec fn whole_magnitude(self) -> Option<nat> {
        let e = self.exponent_field();
        if self.magnitude() == 0 {
            Some(0)
        } else if e < 1023 || e >= 2047 {
            None
        } else if e < 1075 {
            halved_exactly(self.significand() as nat, (1075 - e) as nat)
        } else {
            Some(doubled(self.significand() as nat, (e - 1075) as nat))
        }
    }

    /// What [`Float64::whole`] returns.
    pub open spec fn whole_spec(self) -> Whole {
        match self.whole_magnitude() {
            None => Whole::Neither,
            Some(v) => {
                if v == 0 || !self.negative() {
                    if v <= u64::MAX {
                        Whole::Unsigned(v as u64)
                    } else {
                        Whole::Neither
                    }
                } else if v <= 0x8000_0000_0000_0000 {
                    Whole::Signed((-(v as int)) as i64)
                } else {
                    Whole::Neither
                }
            },
        }
    }

    pub fn from_bits(bits: u64) -> (f: Float64)
        ensures
            f.bits == bits,
    {
        Float64 { bits }
    }

    pub fn to_bits(&self) -> (bits: u64)
        ensures
            bits == self.bits,
    {
        self.bits
    }

    fn abs_bits(&self) -> (m: u64)
        ensures
            m == self.magnitude(),
            m < SIGN_BIT,
    {
        if self.bits >= SIGN_BIT {
            self.bits - SIGN_BIT
        } else {
            self.bits
        }
    }

    pub fn is_nan(&self) -> (r: bool)
        ensures
            r == self.nan(),
    {
        self.abs_bits() > INFINITY_BITS
    }

    /// Numeric equality of two doubles.
    pub fn same_as(&self, other: &Float64) -> (r: bool)
        ensures
            r == self.same(*other),
    {
        if self.is_nan() || other.is_nan() {
            return false;
        }
        let a = self.abs_bits();
        let b = other.abs_bits();
        if a == 0 && b == 0 {
            true
        } else {
            a == b && (self.bits >= SIGN_BIT) == (other.bits >= SIGN_BIT)
        }
    }

    /// Numeric `<` of two doubles.
    pub fn less_than(&self, other: &Float64) -> (r: bool)
        ensures
            r == self.below(*other),
    {
        if self.is_nan() || other.is_nan() {
            return false;
        }
        let a = self.abs_bits();
        let b = other.abs_bits();
        let a_neg = self.bits >= SIGN_BIT;
        let b_neg = other.bits >= SIGN_BIT;
        if a_neg {
            if b_neg {
                b < a
            } else {
                a != 0 || b != 0
            }
        } else {
            if b_neg {
                false
            } else {
                a < b
            }
        }
    }

    /// Numeric `<=` of two doubles.
    pub fn at_most(&self, other: &Float64) -> (r: bool)
        ensures
            r == (self.below(*other) || self.same(*other)),
    {
        self.less_than(other) || self.same_as(other)
    }

    /// The double nearest to an unsigned integer.
    pub fn from_u64(n: u64) -> (f: Float64)
        ensures
            f.bits == nearest_double(n),
            !f.nan(),
            !f.negative(),
    {
        if n == 0 {
            return Float64 { bits: 0 };
        }
        let mut m: u64 = n;
        let mut e: u64 = 63;
        proof {
            lemma_top_bit_range(n as nat);
        }
        while m < SIGN_BIT
            invariant
                0 < m,
                e <= 63,
                left_justified(m as nat) == left_justified(n as nat),
                top_bit(m as nat) - top_bit(n as nat) == 63 - e,
                0 <= top_bit(n as nat) <= 63,
            decreases u64::MAX - m,
        {
            proof {
                lemma_top_bit_range(m as nat);
            }
            m = m * 2;
            e = e - 1;
        }
        let kept: u64 = m / 2048;
        let rest: u64 = m % 2048;
        let up: u64 = if rest > 1024 || (rest == 1024 && kept % 2 == 1) { 1 } else { 0 };
        let bits: u64 = (1023 + e) * HIDDEN_BIT + (kept - HIDDEN_BIT) + up;
        Float64 { bits }
    }

    /// The double nearest to a signed integer.
    pub fn from_i64(n: i64) -> (f: Float64)
        ensures
            n >= 0 ==> f.bits == nearest_double(n as u64),
            n < 0 ==> f.bits == SIGN_BIT + nearest_double((-n) as u64),
            !f.nan(),
    {
        if n >= 0 {
            Float64::from_u64(n as u64)
        } else {
            let abs: u64 = if n == i64::MIN { SIGN_BIT } else { (-n) as u64 };
            let pos = Float64::from_u64(abs);
            Float64 { bits: SIGN_BIT + pos.bits }
        }
    }

    /// Reads the number as a whole number, where it is one and fits.
    pub fn whole(&self) -> (w: Whole)
        ensures
            w == self.whole_spec(),
    {
        let mag = self.abs_bits();
        let neg = self.bits >= SIGN_BIT;
        if mag == 0 {
            return Whole::Unsigned(0);
        }
        let e: u64 = mag / HIDDEN_BIT;
        if e < 1023 || e >= 2047 {
            return Whole::Neither;
        }
        let mut sig: u64 = mag % HIDDEN_BIT + HIDDEN_BIT;
        if e < 1075 {
            let mut k: u64 = 1075 - e;
            while k > 0
                invariant
                    k <= 52,
                    sig > 0,
                    halved_exactly(sig as nat, k as nat) == self.whole_magnitude(),
                decreases k,
            {
                if sig % 2 == 1 {
                    return Whole::Neither;
                }
                sig = sig / 2;
                k = k - 1;
            }
        } else {
            let mut k: u64 = e - 1075;
            while k > 0
                invariant
                    k <= 972,
                    sig > 0,
                    Some(doubled(sig as nat, k as nat)) == self.whole_magnitude(),
                decreases k,
            {
                if sig >= SIGN_BIT {
                    proof {
                        lemma_doubled_grows(2 * (sig as nat), (k - 1) as nat);
                    }
                    return Whole::Neither;
                }
                sig = sig * 2;
                k = k - 1;
            }
        }
        if !neg {
            Whole::Unsigned(sig)
        } else if sig < SIGN_BIT {
            Whole::Signed(-(sig as i64))
        } else if sig == SIGN_BIT {
            Whole::Signed(i64::MIN)
        } else {
            Whole::Neither
        }
    }
}

/// Doubling never shrinks a number.
pub proof fn lemma_doubled_grows(sig: nat, k: nat)
    ensures
        doubled(sig, k) >= sig,
    decreases k,
{
    if k > 0 {
        lemma_doubled_grows(2 * sig, (k - 1) as nat);
    }
}

/// The number that an encoding without sign stands for, times `2^1074`.
/// Every finite double is a whole multiple of `2^-1074`: a subnormal one is
/// its fraction bits, a normal one its significand doubled once for each
/// step of its exponent field above one.
pub open spec fn scaled_magnitude(magnitude: int) -> int {
    let field = magnitude / 0x0010_0000_0000_0000;
    let fraction = magnitude % 0x0010_0000_0000_0000;
    if field == 0 {
        fraction
    } else {
        (0x0010_0000_0000_0000 + fraction) * pow2((field - 1) as nat)
    }
}

impl Float64 {
    /// Neither infinite nor NaN.
    pub open spec fn finite(self) -> bool {
        self.magnitude() < INFINITY_BITS
    }

    /// The number that a finite double is, times `2^1074`.
    pub open spec fn scaled(self) -> int {
        if self.negative() {
            -scaled_magnitude(self.magnitude())
        } else {
            scaled_magnitude(self.magnitude())
        }
    }
}

/// Among encodings without sign the larger stands for the larger number.
pub proof fn lemma_scaled_rises(x: int, y: int)
    requires
        0 <= x < y,
    ensures
        0 <= scaled_magnitude(x) < scaled_magnitude(y),
{
    let one = 0x0010_0000_0000_0000int;
    let ex = x / one;
    let ey = y / one;
    let mx = x % one;
    let my = y % one;
    assert(x == ex * one + mx && y == ey * one + my) by (nonlinear_arith)
        requires
            one == 0x0010_0000_0000_0000int,
            ex == x / one,
            ey == y / one,
            mx == x % one,
            my == y % one,
    ;
    assert(ex <= ey) by (nonlinear_arith)
        requires
            x < y,
            one > 0,
            ex == x / one,
            ey == y / one,
    ;
    lemma_pow2_pos((ey - 1) as nat);
    if ex == ey {
        assert(mx < my);
        if ex > 0 {
            let p = pow2((ex - 1) as nat) as int;
            assert((one + mx) * p < (one + my) * p) by (nonlinear_arith)
                requires
                    mx < my,
                    p > 0,
            ;
            assert(0 <= (one + mx) * p) by (nonlinear_arith)
                requires
                    0 <= mx,
                    one > 0,
                    p > 0,
            ;
        }
    } else {
        // A step of the field outweighs every fraction.
        let q = pow2((ey - 1) as nat) as int;
        assert(one * q <= (one + my) * q) by (nonlinear_arith)
            requires
                0 <= my,
                q > 0,
        ;
        if ex == 0 {
            assert(one * 1 <= one * q) by (nonlinear_arith)
                requires
                    q >= 1,
                    one > 0,
            ;
        } else {
            let p = pow2((ex - 1) as nat) as int;
            lemma_pow2_pos((ex - 1) as nat);
            lemma_pow2_unfold(ex as nat);
            if ex < ey - 1 {
                lemma_pow2_strictly_increases(ex as nat, (ey - 1) as nat);
            }
            assert(pow2(ex as nat) <= q);
            assert((one + mx) * p < one * (2 * p)) by (nonlinear_arith)
                requires
                    mx < one,
                    p > 0,
            ;
            assert(one * (2 * p) <= one * q) by (nonlinear_arith)
                requires
                    2 * p <= q,
                    one > 0,
            ;
            assert(0 <= (one + mx) * p) by (nonlinear_arith)
                requires
                    0 <= mx,
                    one > 0,
                    p > 0,
            ;
        }
    }
}

/// The order of the doubles is the order of the numbers they are: of two
/// finite doubles one is below the other exactly where it is the smaller
/// number, and they are the same exactly where they are the same number.
pub proof fn law_order_is_numeric(a: Float64, b: Float64)
    requires
        a.finite(),
        b.finite(),
    ensures
        a.below(b) == (a.scaled() < b.scaled()),
        a.same(b) == (a.scaled() == b.scaled()),
{
    let x = a.magnitude();
    let y = b.magnitude();
    if x < y {
        lemma_scaled_rises(x, y);
    } else if y < x {
        lemma_scaled_rises(y, x);
    }
    if 0 < x {
        lemma_scaled_rises(0, x);
    }
    if 0 < y {
        lemma_scaled_rises(0, y);
    }
    assert(scaled_magnitude(0) == 0);
}

/// Every finite double is below positive infinity and above negative
/// infinity, and NaN is neither below nor above nor the same as anything.
pub proof fn law_infinities_bound(a: Float64, b: Float64)
    ensures
        a.finite() && b.bits == INFINITY_BITS ==> a.below(b),
        a.finite() && b.bits == INFINITY_BITS + SIGN_BIT ==> b.below(a),
        a.nan() ==> !a.below(b) && !b.below(a) && !a.same(b) && !b.same(a),
{
}

/// Doubling until bit 63 is set multiplies by a power of two.
pub proof fn lemma_left_justified(n: nat)
    requires
        0 < n < 0x1_0000_0000_0000_0000,
    ensures
        0 <= top_bit(n) <= 63,
        left_justified(n) == n * pow2((63 - top_bit(n)) as nat),
    decreases 0x1_0000_0000_0000_0000 - n,
{
    lemma_top_bit_range(n);
    lemma2_to64();
    if n < 0x8000_0000_0000_0000 {
        lemma_left_justified(2 * n);
        lemma_top_bit_range(2 * n);
        let k = (63 - top_bit(2 * n)) as nat;
        let kn = (63 - top_bit(n)) as nat;
        assert(kn == k + 1);
        lemma_pow2_unfold(kn);
        let p = pow2(k);
        let q = pow2(kn);
        assert(q == 2 * p);
        assert(left_justified(n) == left_justified(2 * n));
        assert(n * q == (2 * n) * p) by (nonlinear_arith)
            requires
                q == 2 * p,
        ;
    } else {
        assert(pow2(0) == 1);
        assert(n * 1 == n);
    }
}

/// The double that an integer projects to is the integer rounded to 53
/// leading bits, to the nearest and on a tie to the even one.  In the scale
/// in which the integer has its top bit at place 63, the double is a
/// multiple of `2^11` that is at most `2^10` away from the integer, and an
/// even multiple where it is exactly that far away.
pub proof fn law_projection_rounds(n: u64)
    requires
        n > 0,
    ensures
        (Float64 { bits: nearest_double(n) }).finite(),
        !(Float64 { bits: nearest_double(n) }).negative(),
        ({
            let double = Float64 { bits: nearest_double(n) };
            let lift = pow2((63 - top_bit(n as nat)) as nat);
            let target = n * lift;
            let rounded = double.scaled() * lift / (pow2(1074) as int);
            &&& double.scaled() * lift == rounded * pow2(1074)
            &&& rounded % 2048 == 0
            &&& -1024 <= rounded - target <= 1024
            &&& (rounded - target == 1024 || target - rounded == 1024) ==> (rounded / 2048) % 2
                == 0
        }),
{
    let one = 0x0010_0000_0000_0000int;
    let e = top_bit(n as nat);
    lemma_left_justified(n as nat);
    lemma_top_bit_range(n as nat);
    let lift = pow2((63 - e) as nat) as int;
    let m = left_justified(n as nat) as int;
    let kept = m / 2048;
    let rest = m % 2048;
    let up: int = if rest > 1024 || (rest == 1024 && kept % 2 == 1) { 1 } else { 0 };
    let sig = kept + up;
    let rounded = sig * 2048;
    assert(one <= kept < 2 * one);
    let bits = (1023 + e) * one + (kept - one) + up;
    assert(bits == nearest_double(n));
    let double = Float64 { bits: nearest_double(n) };
    assert(double.magnitude() == bits);
    // The field and the fraction of the encoding.
    let field: int = if sig == 2 * one { 1024 + e } else { 1023 + e };
    let fraction: int = if sig == 2 * one { 0 } else { sig - one };
    assert(bits == field * one + fraction);
    assert(bits / one == field && bits % one == fraction) by {
        lemma_fundamental_div_mod_converse(bits, one, field, fraction);
    }
    let step = pow2((field - 1) as nat) as int;
    assert(double.scaled() == (one + fraction) * step);
    // In either case the number is `sig` doubled `1022 + e` times.
    let base = pow2((1022 + e) as nat) as int;
    lemma_pow2_pos((1022 + e) as nat);
    if sig == 2 * one {
        lemma_pow2_unfold((1023 + e) as nat);
        assert(one * (2 * base) == (2 * one) * base) by (nonlinear_arith);
    }
    assert(double.scaled() == sig * base);
    // Lifted to the scale of the integer it is `rounded` times `2^1074`.
    lemma_pow2_adds((1022 + e) as nat, (63 - e) as nat);
    lemma_pow2_adds(11, 1074);
    lemma2_to64();
    let unit = pow2(1074) as int;
    lemma_pow2_pos(1074);
    assert(base * lift == 2048 * unit);
    assert(double.scaled() * lift == rounded * unit) by (nonlinear_arith)
        requires
            double.scaled() == sig * base,
            base * lift == 2048 * unit,
            rounded == sig * 2048,
    ;
    assert(rounded * unit / unit == rounded) by {
        lemma_div_multiples_vanish(rounded, unit);
    }
    assert(rounded % 2048 == 0) by {
        lemma_mod_multiples_basic(sig, 2048);
    }
    assert(rounded / 2048 == sig) by {
        lemma_div_multiples_vanish(sig, 2048);
    }
    assert(m == kept * 2048 + rest) by {
        lemma_fundamental_div_mod(m, 2048);
    }
    assert(n * lift == m);
    assert(rounded - m == up * 2048 - rest) by (nonlinear_arith)
        requires
            rounded == (kept + up) * 2048,
            m == kept * 2048 + rest,
    ;
    lemma_infinity_above(field, fraction, one);
}

/// An encoding whose field is below 2047 is finite.
proof fn lemma_infinity_above(field: int, fraction: int, one: int)
    requires
        one == 0x0010_0000_0000_0000int,
        0 <= field <= 1087,
        0 <= fraction < one,
    ensures
        field * one + fraction < 0x7ff0_0000_0000_0000,
{
    assert(field * one <= 1087 * one) by (nonlinear_arith)
        requires
            field <= 1087,
            one > 0,
    ;
}

/// Doubling `k` times multiplies by `2^k`.
pub proof fn lemma_doubled(sig: nat, k: nat)
    ensures
        doubled(sig, k) == sig * pow2(k),
    decreases k,
{
    lemma2_to64();
    if k > 0 {
        lemma_doubled(2 * sig, (k - 1) as nat);
        lemma_pow2_unfold(k);
        let p = pow2((k - 1) as nat);
        let q = pow2(k);
        assert(q == 2 * p);
        assert((2 * sig) * p == sig * q) by (nonlinear_arith)
            requires
                q == 2 * p,
        ;
    } else {
        assert(pow2(0) == 1);
        assert(sig * 1 == sig);
    }
}

/// Halving `k` times divides by `2^k`, and is exact where that leaves no
/// remainder.
pub proof fn lemma_halved(sig: nat, k: nat)
    ensures
        halved_exactly(sig, k) == (if sig % pow2(k) == 0 {
            Some(sig / pow2(k))
        } else {
            None
        }),
    decreases k,
{
    lemma2_to64();
    if k > 0 {
        let q = pow2((k - 1) as nat) as int;
        let p = pow2(k) as int;
        lemma_pow2_unfold(k);
        lemma_pow2_pos((k - 1) as nat);
        assert(p == 2 * q);
        let s = sig as int;
        if s % 2 == 1 {
            // An odd number is no multiple of an even one.
            if s % p == 0 {
                lemma_fundamental_div_mod(s, p);
                let t = s / p;
                assert(s == 2 * (q * t)) by (nonlinear_arith)
                    requires
                        s == p * t + 0,
                        p == 2 * q,
                ;
            }
        } else {
            let h = s / 2;
            assert(s == 2 * h);
            lemma_halved(h as nat, (k - 1) as nat);
            vstd::arithmetic::div_mod::lemma_truncate_middle(h, 2, q);
            assert((2 * h) % (2 * q) == 2 * (h % q));
            if h % q == 0 {
                lemma_fundamental_div_mod(h, q);
                let t = h / q;
                assert(s == p * t) by (nonlinear_arith)
                    requires
                        s == 2 * h,
                        h == q * t + 0,
                        p == 2 * q,
                ;
                lemma_div_multiples_vanish(t, p);
            }
        }
    }
}

/// A double is a whole number exactly where [`Float64::whole_magnitude`]
/// says so, and is then the number it says: the number times `2^1074` is
/// that many times `2^1074`, and has a remainder against `2^1074` where no
/// whole number is found.
pub proof fn law_whole_is_numeric(f: Float64)
    requires
        f.finite(),
    ensures
        match f.whole_magnitude() {
            Some(v) => scaled_magnitude(f.magnitude()) == v * pow2(1074),
            None => scaled_magnitude(f.magnitude()) % (pow2(1074) as int) != 0,
        },
{
    let one = 0x0010_0000_0000_0000int;
    let mag = f.magnitude();
    let e = f.exponent_field();
    let m = mag % one;
    let sig = one + m;
    let unit = pow2(1074) as int;
    lemma_pow2_pos(1074);
    lemma2_to64();
    lemma2_to64_rest();
    assert(0 <= e < 2047) by {
        lemma_fundamental_div_mod(mag, one);
        assert(e * one <= mag) by (nonlinear_arith)
            requires
                mag == one * e + m,
                m >= 0,
        ;
        if e >= 2047 {
            assert(e * one >= 2047 * one) by (nonlinear_arith)
                requires
                    e >= 2047,
                    one > 0,
            ;
        }
    }
    if mag == 0 {
        assert(0 * unit == 0);
    } else if e == 0 {
        // A subnormal number is below one.
        lemma_pow2_strictly_increases(52, 1074);
        lemma_small_mod(m as nat, unit as nat);
    } else if e < 1023 {
        // A number below one is no whole number.
        let step = pow2((e - 1) as nat) as int;
        lemma_pow2_pos((e - 1) as nat);
        lemma_pow2_adds(53, (e - 1) as nat);
        if e + 52 < 1074 {
            lemma_pow2_strictly_increases((e + 52) as nat, 1074);
        }
        lemma2_to64_rest();
        assert(sig * step < pow2(53) * step) by (nonlinear_arith)
            requires
                sig < pow2(53),
                step > 0,
        ;
        assert(0 < sig * step) by (nonlinear_arith)
            requires
                sig > 0,
                step > 0,
        ;
        lemma_small_mod((sig * step) as nat, unit as nat);
    } else if e < 1075 {
        let k = (1075 - e) as nat;
        let cut = pow2(k) as int;
        let step = pow2((e - 1) as nat) as int;
        lemma_pow2_pos(k);
        lemma_pow2_pos((e - 1) as nat);
        lemma_pow2_adds((e - 1) as nat, k);
        assert(step * cut == unit);
        lemma_halved(sig as nat, k);
        if sig % cut == 0 {
            lemma_fundamental_div_mod(sig, cut);
            let v = sig / cut;
            assert(sig * step == v * unit) by (nonlinear_arith)
                requires
                    sig == cut * v + 0,
                    step * cut == unit,
            ;
        } else {
            vstd::arithmetic::div_mod::lemma_truncate_middle(sig, step, cut);
            assert((step * sig) % (step * cut) == step * (sig % cut));
            assert(0 < step * (sig % cut)) by (nonlinear_arith)
                requires
                    step > 0,
                    sig % cut > 0,
            ;
            assert(sig * step == step * sig) by (nonlinear_arith);
        }
    } else {
        let k = (e - 1075) as nat;
        lemma_doubled(sig as nat, k);
        lemma_pow2_adds(k, 1074);
        let lift = pow2(k) as int;
        let step = pow2((e - 1) as nat) as int;
        assert(step == lift * unit);
        assert(sig * step == (sig * lift) * unit) by (nonlinear_arith)
            requires
                step == lift * unit,
        ;
    }
}

} // verus!
