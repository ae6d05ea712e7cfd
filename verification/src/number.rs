//! Floating-point numbers carried by their bit patterns.
//!
//! Sample values, sample rates and plot coordinates are 64-bit floating-point
//! numbers. Nothing is computed with them here that would have to be rounded:
//! which of two is the smaller can be read off the bits, and a whole number or
//! a 32-bit floating-point number is widened exactly.
use vstd::arithmetic::power2::pow2;
use vstd::prelude::*;

verus! {

/// The step of the exponent field, two to the power of 52.
pub const EXPONENT_STEP: u64 = 0x10_0000_0000_0000;

/// The weight of the sign bit, two to the power of 63.
pub const SIGN_WEIGHT: u64 = 0x8000_0000_0000_0000;

/// The bits of positive infinity, above every finite magnitude.
pub const INFINITY_BITS: u64 = 0x7ff0_0000_0000_0000;

/// A 64-bit floating-point number, by its IEEE 754 bit pattern.
#[derive(Clone, Copy, Debug, PartialEq, Eq, Structural)]
pub struct Real {
    pub bits: u64,
}

/// How many steps of two to the power of -1074 a finite magnitude spans.
pub open spec fn magnitude_units(magnitude: int) -> int {
    let exponent = magnitude / (EXPONENT_STEP as int);
    let fraction = magnitude % (EXPONENT_STEP as int);
    if exponent == 0 {
        fraction
    } else {
        (EXPONENT_STEP + fraction) * pow2((exponent - 1) as nat)
    }
}

impl Real {
    /// The bits below the sign.
    pub open spec fn magnitude(self) -> int {
        if self.bits >= SIGN_WEIGHT {
            self.bits - SIGN_WEIGHT
        } else {
            self.bits as int
        }
    }

    /// The bits spell no number.
    pub open spec fn is_nan(self) -> bool {
        self.magnitude() > INFINITY_BITS
    }

    /// The bits spell a finite number.
    pub open spec fn is_finite(self) -> bool {
        self.magnitude() < INFINITY_BITS
    }

    /// The place of the number among all numbers; zero has one place, whatever
    /// its sign.
    pub open spec fn rank(self) -> int {
        if self.bits >= SIGN_WEIGHT {
            -self.magnitude()
        } else {
            self.magnitude()
        }
    }

    /// The number itself where it is finite, counted in steps of two to the
    /// power of -1074, of which every finite number is a whole multiple.
    pub open spec fn units(self) -> int {
        if self.bits >= SIGN_WEIGHT {
            -magnitude_units(self.magnitude())
        } else {
            magnitude_units(self.magnitude())
        }
    }

    /// The first number is smaller than the second; false where either is none.
    pub open spec fn less(self, other: Real) -> bool {
        !self.is_nan() && !other.is_nan() && self.rank() < other.rank()
    }

    /// The two numbers are the same; false where either is none.
    pub open spec fn equals(self, other: Real) -> bool {
        !self.is_nan() && !other.is_nan() && self.rank() == other.rank()
    }

    /// The smaller of two numbers; where one is none, the other.
    pub open spec fn lower(self, other: Real) -> Real {
        if self.is_nan() || other.less(self) {
            other
        } else {
            self
        }
    }

    /// The larger of two numbers; where one is none, the other.
    pub open spec fn higher(self, other: Real) -> Real {
        if self.is_nan() || self.less(other) {
            other
        } else {
            self
        }
    }

    /// The number without its sign.
    pub open spec fn absolute(self) -> Real {
        Real { bits: self.magnitude() as u64 }
    }

    fn magnitude_bits(self) -> (m: u64)
        ensures
            m == self.magnitude(),
    {
        if self.bits >= SIGN_WEIGHT {
            self.bits - SIGN_WEIGHT
        } else {
            self.bits
        }
    }

    /// Whether the bits spell no number.
    pub fn nan(self) -> (r: bool)
        ensures
            r == self.is_nan(),
    {
        self.magnitude_bits() > INFINITY_BITS
    }

    /// Whether the bits spell a finite number.
    pub fn finite(self) -> (r: bool)
        ensures
            r == self.is_finite(),
    {
        self.magnitude_bits() < INFINITY_BITS
    }

    /// Whether this number is smaller than the other.
    pub fn below(self, other: Real) -> (r: bool)
        ensures
            r == self.less(other),
    {
        if self.nan() || other.nan() {
            return false;
        }
        let a: u64 = self.magnitude_bits();
        let b: u64 = other.magnitude_bits();
        if self.bits >= SIGN_WEIGHT {
            if other.bits >= SIGN_WEIGHT {
                b < a
            } else {
                a > 0 || b > 0
            }
        } else {
            other.bits < SIGN_WEIGHT && a < b
        }
    }

    /// Whether the two numbers are the same.
    pub fn same(self, other: Real) -> (r: bool)
        ensures
            r == self.equals(other),
    {
        !self.nan() && !other.nan() && !self.below(other) && !other.below(self)
    }

    /// Whether this number is zero or smaller.
    pub fn at_most_zero(self) -> (r: bool)
        ensures
            r == (!self.is_nan() && self.rank() <= 0),
    {
        !self.nan() && (self.bits >= SIGN_WEIGHT || self.bits == 0)
    }

    /// Whether this number is larger than zero.
    pub fn positive(self) -> (r: bool)
        ensures
            r == (!self.is_nan() && self.rank() > 0),
    {
        !self.nan() && !self.at_most_zero()
    }

    /// The number without its sign.
    pub fn abs(self) -> (r: Real)
        ensures
            r == self.absolute(),
    {
        Real { bits: self.magnitude_bits() }
    }

    /// The smaller of the two numbers.
    pub fn min(self, other: Real) -> (r: Real)
        ensures
            r == self.lower(other),
    {
        if self.nan() || other.below(self) {
            other
        } else {
            self
        }
    }

    /// The larger of the two numbers.
    pub fn max(self, other: Real) -> (r: Real)
        ensures
            r == self.higher(other),
    {
        if self.nan() || self.below(other) {
            other
        } else {
            self
        }
    }
}

proof fn lemma_magnitude_span(magnitude: int)
    requires
        0 <= magnitude,
    ensures
        0 <= magnitude_units(magnitude),
        magnitude_units(magnitude) < EXPONENT_STEP * pow2(
            (magnitude / (EXPONENT_STEP as int)) as nat,
        ),
        magnitude >= EXPONENT_STEP ==> magnitude_units(magnitude) >= EXPONENT_STEP * pow2(
            (magnitude / (EXPONENT_STEP as int) - 1) as nat,
        ),
        magnitude > 0 ==> magnitude_units(magnitude) > 0,
{
    let step = EXPONENT_STEP as int;
    let exponent = magnitude / step;
    let fraction = magnitude % step;
    if exponent == 0 {
        vstd::arithmetic::power2::lemma2_to64();
        assert(step * pow2(0) == step) by (nonlinear_arith)
            requires
                pow2(0) == 1,
        ;
    } else {
        let p = pow2((exponent - 1) as nat) as int;
        vstd::arithmetic::power2::lemma_pow2_pos((exponent - 1) as nat);
        vstd::arithmetic::power2::lemma_pow2_unfold(exponent as nat);
        assert(pow2(exponent as nat) == 2 * p);
        assert(step * p <= (step + fraction) * p < step * (2 * p) && 0 < (step + fraction) * p)
            by (nonlinear_arith)
            requires
                0 <= fraction < step,
                0 < p,
        ;
    }
}

proof fn lemma_magnitude_order(a: int, b: int)
    requires
        0 <= a < b,
    ensures
        magnitude_units(a) < magnitude_units(b),
{
    let step = EXPONENT_STEP as int;
    lemma_magnitude_span(a);
    lemma_magnitude_span(b);
    let ea = a / step;
    let eb = b / step;
    assert(ea <= eb);
    if ea < eb {
        if ea < eb - 1 {
            vstd::arithmetic::power2::lemma_pow2_strictly_increases(ea as nat, (eb - 1) as nat);
        }
        let p = pow2(ea as nat) as int;
        let q = pow2((eb - 1) as nat) as int;
        assert(step * p <= step * q) by (nonlinear_arith)
            requires
                p <= q,
                0 < step,
        ;
    } else if ea > 0 {
        let p = pow2((ea - 1) as nat) as int;
        vstd::arithmetic::power2::lemma_pow2_pos((ea - 1) as nat);
        let fa = a % step;
        let fb = b % step;
        assert((step + fa) * p < (step + fb) * p) by (nonlinear_arith)
            requires
                fa < fb,
                0 < p,
        ;
    }
}

/// The places of finite numbers are in the order of the numbers.
pub proof fn law_rank_is_the_order_of_numbers(a: Real, b: Real)
    requires
        a.is_finite(),
        b.is_finite(),
    ensures
        a.rank() < b.rank() <==> a.units() < b.units(),
        a.rank() == b.rank() <==> a.units() == b.units(),
{
    let x = a.magnitude();
    let y = b.magnitude();
    lemma_magnitude_span(x);
    lemma_magnitude_span(y);
    if x < y {
        lemma_magnitude_order(x, y);
    } else if y < x {
        lemma_magnitude_order(y, x);
    }
}

/// Of finite numbers one is below another as they are counted; nothing is below
/// what is no number or the other way round; every finite number lies between
/// the two infinities.
pub proof fn law_numbers_are_told_apart(a: Real, b: Real)
    ensures
        a.is_finite() && b.is_finite() ==> (a.less(b) <==> a.units() < b.units()) && (a.equals(b)
            <==> a.units() == b.units()),
        a.is_nan() || b.is_nan() ==> !a.less(b) && !a.equals(b),
        a.is_finite() ==> a.less(Real { bits: 0x7ff0_0000_0000_0000 }) && (Real {
            bits: 0xfff0_0000_0000_0000,
        }).less(a),
        !a.is_nan() && !b.is_nan() ==> a.less(b) || b.less(a) || a.equals(b),
        !(a.less(b) && b.less(a)) && !(a.less(b) && a.equals(b)),
        (Real { bits: 0xfff0_0000_0000_0000 }).less(Real { bits: 0x7ff0_0000_0000_0000 }),
        !a.is_nan() ==> a.equals(a),
        a.is_nan() <==> 0x7ff0_0000_0000_0000 < a.bits < 0x8000_0000_0000_0000 || 0xfff0_0000_0000_0000
            < a.bits,
        a.is_finite() <==> a.bits < 0x7ff0_0000_0000_0000 || 0x8000_0000_0000_0000 <= a.bits
            < 0xfff0_0000_0000_0000,
{
    if a.is_finite() && b.is_finite() {
        law_rank_is_the_order_of_numbers(a, b);
    }
}

/// The smaller and the larger of two numbers are the two numbers, and lie on
/// either side of both. Where one is no number, both are the other.
pub proof fn law_the_smaller_and_the_larger(a: Real, b: Real)
    ensures
        a.lower(b) == a || a.lower(b) == b,
        a.higher(b) == a || a.higher(b) == b,
        !a.less(a.lower(b)) && !b.less(a.lower(b)),
        !a.higher(b).less(a) && !a.higher(b).less(b),
        !a.is_nan() && b.is_nan() ==> a.lower(b) == a && a.higher(b) == a,
        a.is_nan() && !b.is_nan() ==> a.lower(b) == b && a.higher(b) == b,
        a.lower(b).is_nan() <==> a.is_nan() && b.is_nan(),
        a.higher(b).is_nan() <==> a.is_nan() && b.is_nan(),
{
}

/// Without its sign a number is as far from zero as it was, and not below it;
/// only the sign bit changes.
pub proof fn law_the_absolute_value_drops_the_sign(a: Real)
    ensures
        a.is_finite() ==> a.absolute().is_finite() && a.absolute().units() == (if a.units() < 0 {
            -a.units()
        } else {
            a.units()
        }),
        a.absolute().bits < 0x8000_0000_0000_0000,
        a.absolute().bits == a.bits || a.bits == a.absolute().bits + 0x8000_0000_0000_0000,
        a.absolute().is_nan() <==> a.is_nan(),
{
    if a.is_finite() {
        lemma_magnitude_span(a.magnitude());
    }
}

/// The smallest numbers are counted by their bits, and the sign bit turns a
/// number into its opposite.
pub proof fn law_small_numbers_are_counted_by_their_bits(a: Real)
    ensures
        a.bits < 0x20_0000_0000_0000 ==> a.units() == a.bits,
        a.bits < 0x8000_0000_0000_0000 ==> (Real {
            bits: (a.bits + 0x8000_0000_0000_0000) as u64,
        }).units() == -a.units(),
{
    if a.bits < 0x20_0000_0000_0000 {
        vstd::arithmetic::power2::lemma2_to64();
        let step = EXPONENT_STEP as int;
        let fraction = a.bits as int % step;
        assert((step + fraction) * pow2(0) == step + fraction) by (nonlinear_arith)
            requires
                pow2(0) == 1,
        ;
    }
}

/// One step of the exponent doubles a number.
pub proof fn law_exponent_step_doubles(a: Real, b: Real)
    requires
        EXPONENT_STEP <= a.bits,
        b.bits == a.bits + EXPONENT_STEP,
        b.bits < INFINITY_BITS,
    ensures
        b.units() == 2 * a.units(),
{
    let step = EXPONENT_STEP as int;
    let exponent = a.bits as int / step;
    let fraction = a.bits as int % step;
    assert(b.bits as int / step == exponent + 1);
    assert(b.bits as int % step == fraction);
    vstd::arithmetic::power2::lemma_pow2_unfold(exponent as nat);
    let p = pow2((exponent - 1) as nat) as int;
    assert((step + fraction) * (2 * p) == 2 * ((step + fraction) * p)) by (nonlinear_arith);
}

/// The number is a whole one.
pub open spec fn is_whole(r: Real, n: int) -> bool {
    &&& r.is_finite()
    &&& r.units() == n * pow2(1074)
    &&& n == 0 ==> r.bits == 0
}

/// The floating-point number that a whole number is.
pub open spec fn whole(n: int) -> Real {
    choose|r: Real| is_whole(r, n)
}

/// No two floating-point numbers are the same whole number.
proof fn lemma_whole_is_unique(a: Real, b: Real, n: int)
    requires
        is_whole(a, n),
        is_whole(b, n),
    ensures
        a == b,
{
    law_rank_is_the_order_of_numbers(a, b);
    if n != 0 {
        vstd::arithmetic::power2::lemma_pow2_pos(1074);
        let p = pow2(1074) as int;
        assert(n * p != 0) by (nonlinear_arith)
            requires
                n != 0,
                p > 0,
        ;
        let zero = Real { bits: 0 };
        law_rank_is_the_order_of_numbers(a, zero);
    }
}

/// Twice the significand in front of half the power of two is the same number.
proof fn lemma_doubled(significand: int, exponent: int)
    requires
        2 <= exponent,
    ensures
        significand * pow2((exponent - 1) as nat) == (2 * significand) * pow2(
            (exponent - 2) as nat,
        ),
{
    vstd::arithmetic::power2::lemma_pow2_unfold((exponent - 1) as nat);
    let p = pow2((exponent - 2) as nat) as int;
    assert(significand * (2 * p) == (2 * significand) * p) by (nonlinear_arith);
}

/// The bits of a significand that fills its field, in front of a power of two.
proof fn lemma_packed(significand: int, exponent: int)
    requires
        EXPONENT_STEP <= significand < 2 * EXPONENT_STEP,
        1 <= exponent <= 1075,
    ensures
        0 <= (exponent - 1) * EXPONENT_STEP + significand < INFINITY_BITS,
        magnitude_units((exponent - 1) * EXPONENT_STEP + significand) == significand * pow2(
            (exponent - 1) as nat,
        ),
{
    let step = EXPONENT_STEP as int;
    let bits = (exponent - 1) * step + significand;
    assert(bits == exponent * step + (significand - step)) by (nonlinear_arith)
        requires
            bits == (exponent - 1) * step + significand,
    ;
    vstd::arithmetic::div_mod::lemma_fundamental_div_mod_converse(
        bits,
        step,
        exponent,
        significand - step,
    );
    assert(0 <= bits < INFINITY_BITS) by (nonlinear_arith)
        requires
            bits == exponent * step + (significand - step),
            step == 0x10_0000_0000_0000,
            step <= significand < 2 * step,
            1 <= exponent <= 1075,
            INFINITY_BITS == 0x7ff0_0000_0000_0000,
    ;
}

/// The bits of a significand in front of a power of two.
spec fn normal_bits(significand: int, exponent: int) -> int
    decreases 2 * EXPONENT_STEP - significand,
{
    if 0 < significand < EXPONENT_STEP {
        normal_bits(2 * significand, exponent - 1)
    } else {
        (exponent - 1) * EXPONENT_STEP + significand
    }
}

/// A significand of at least so many binary digits, in front of a power of two
/// that leaves room to fill its field, has bits.
proof fn lemma_normalised(significand: int, exponent: int, size: nat)
    requires
        pow2(size) <= significand < 2 * EXPONENT_STEP,
        size <= 52,
        53 - size <= exponent <= 1075,
    ensures
        0 <= normal_bits(significand, exponent) < INFINITY_BITS,
        magnitude_units(normal_bits(significand, exponent)) == significand * pow2(
            (exponent - 1) as nat,
        ),
    decreases 2 * EXPONENT_STEP - significand,
{
    vstd::arithmetic::power2::lemma2_to64_rest();
    vstd::arithmetic::power2::lemma_pow2_pos(size);
    if significand < EXPONENT_STEP {
        vstd::arithmetic::power2::lemma_pow2_unfold(size + 1);
        assert(size < 52);
        lemma_doubled(significand, exponent);
        lemma_normalised(2 * significand, exponent - 1, size + 1);
    } else {
        lemma_packed(significand, exponent);
    }
}

/// The bits of a significand in front of a power of two.
fn normalised(significand: u64, exponent: u64) -> (bits: u64)
    requires
        0 < significand < 2 * EXPONENT_STEP,
        53 <= exponent <= 1075,
    ensures
        bits < INFINITY_BITS,
        magnitude_units(bits as int) == significand * pow2((exponent - 1) as nat),
{
    let mut m: u64 = significand;
    let mut e: u64 = exponent;
    proof {
        vstd::arithmetic::power2::lemma2_to64();
        vstd::arithmetic::power2::lemma2_to64_rest();
        lemma_normalised(significand as int, exponent as int, 0);
    }
    let ghost mut size: nat = 0;
    while m < EXPONENT_STEP
        invariant
            pow2(size) <= m < 2 * EXPONENT_STEP,
            0 < m,
            size <= 52,
            pow2(52) == EXPONENT_STEP,
            e == exponent - size,
            53 <= exponent <= 1075,
            normal_bits(m as int, e as int) == normal_bits(significand as int, exponent as int),
        decreases 2 * EXPONENT_STEP - m,
    {
        proof {
            vstd::arithmetic::power2::lemma_pow2_unfold(size + 1);
            assert(size < 52);
            size = size + 1;
        }
        m = 2 * m;
        e = e - 1;
    }
    proof {
        lemma_packed(m as int, e as int);
    }
    (e - 1) * EXPONENT_STEP + m
}

impl Real {
    /// The floating-point number that a whole number is.
    pub fn from_count(n: i32) -> (r: Real)
        ensures
            r == whole(n as int),
            is_whole(r, n as int),
    {
        let size: u64 = if n < 0 {
            (-(n as i64)) as u64
        } else {
            n as u64
        };
        let ghost p = pow2(1074) as int;
        let r = if size == 0 {
            Real { bits: 0 }
        } else {
            let bits: u64 = normalised(size, 1075);
            if n < 0 {
                proof {
                    assert(-(size * p) == n * p) by (nonlinear_arith)
                        requires
                            size == -n,
                    ;
                }
                Real { bits: SIGN_WEIGHT + bits }
            } else {
                Real { bits }
            }
        };
        proof {
            assert(0 * p == 0);
            assert(is_whole(r, n as int));
            lemma_whole_is_unique(r, whole(n as int), n as int);
        }
        r
    }
}

/// The weight of the sign bit of a 32-bit floating-point number.
pub const SMALL_SIGN_WEIGHT: u32 = 0x8000_0000;

/// The step of the exponent field of a 32-bit floating-point number.
pub const SMALL_EXPONENT_STEP: u32 = 0x80_0000;

/// The bits of positive infinity as a 32-bit floating-point number.
pub const SMALL_INFINITY_BITS: u32 = 0x7f80_0000;

/// The bits below the sign of a 32-bit floating-point number.
pub open spec fn small_magnitude(bits: u32) -> int {
    if bits >= SMALL_SIGN_WEIGHT {
        bits - SMALL_SIGN_WEIGHT
    } else {
        bits as int
    }
}

/// How many steps of two to the power of -1074 a finite 32-bit floating-point
/// magnitude spans.
pub open spec fn small_units(magnitude: int) -> int {
    let exponent = magnitude / (SMALL_EXPONENT_STEP as int);
    let fraction = magnitude % (SMALL_EXPONENT_STEP as int);
    if exponent == 0 {
        fraction * pow2(925)
    } else {
        (SMALL_EXPONENT_STEP + fraction) * pow2((exponent + 924) as nat)
    }
}

/// The number is a 32-bit floating-point number, sign included.
pub open spec fn is_widened(r: Real, bits: u32) -> bool {
    &&& r.bits >= SIGN_WEIGHT <==> bits >= SMALL_SIGN_WEIGHT
    &&& if small_magnitude(bits) < SMALL_INFINITY_BITS {
        r.is_finite() && magnitude_units(r.magnitude()) == small_units(small_magnitude(bits))
    } else if small_magnitude(bits) == SMALL_INFINITY_BITS {
        r.magnitude() == INFINITY_BITS
    } else {
        r.magnitude() == INFINITY_BITS + EXPONENT_STEP / 2 + (small_magnitude(bits)
            - SMALL_INFINITY_BITS) % 0x40_0000 * 0x2000_0000
    }
}

/// The 64-bit floating-point number that a 32-bit one is. One that is no number
/// stays none, with what it carries.
pub open spec fn widened(bits: u32) -> Real {
    choose|r: Real| is_widened(r, bits)
}

/// No two floating-point numbers are the same 32-bit one.
proof fn lemma_widened_is_unique(a: Real, b: Real, bits: u32)
    requires
        is_widened(a, bits),
        is_widened(b, bits),
    ensures
        a == b,
{
    if small_magnitude(bits) < SMALL_INFINITY_BITS {
        let x = a.magnitude();
        let y = b.magnitude();
        if x < y {
            lemma_magnitude_order(x, y);
        } else if y < x {
            lemma_magnitude_order(y, x);
        }
    }
}

/// The bits of a 32-bit floating-point number with a full significand as a
/// 64-bit one: the fraction moves up and the exponent is counted from elsewhere.
proof fn lemma_widened_normal(m: int)
    requires
        SMALL_EXPONENT_STEP <= m < SMALL_INFINITY_BITS,
    ensures
        0 <= m * 0x2000_0000 + 896 * EXPONENT_STEP < INFINITY_BITS,
        magnitude_units(m * 0x2000_0000 + 896 * EXPONENT_STEP) == small_units(m),
{
    let step = EXPONENT_STEP as int;
    let exponent = m / (SMALL_EXPONENT_STEP as int);
    let fraction = m % (SMALL_EXPONENT_STEP as int);
    let r = m * 0x2000_0000 + 896 * step;
    assert(r / step == exponent + 896);
    assert(r % step == fraction * 0x2000_0000);
    vstd::arithmetic::power2::lemma2_to64();
    vstd::arithmetic::power2::lemma_pow2_adds(29, (exponent + 895) as nat);
    let p = pow2((exponent + 895) as nat) as int;
    assert((step + fraction * 0x2000_0000) * p == (SMALL_EXPONENT_STEP + fraction) * (0x2000_0000
        * p)) by (nonlinear_arith)
        requires
            step == 0x80_0000 * 0x2000_0000,
            SMALL_EXPONENT_STEP == 0x80_0000,
    ;
}

/// The magnitude of a 32-bit floating-point number in the bits of a 64-bit one.
fn widened_magnitude(m: u32) -> (r: u64)
    requires
        m < SMALL_SIGN_WEIGHT,
    ensures
        r < SIGN_WEIGHT,
        m < SMALL_INFINITY_BITS ==> r < INFINITY_BITS && magnitude_units(r as int) == small_units(
            m as int,
        ),
        m == SMALL_INFINITY_BITS ==> r == INFINITY_BITS,
        m > SMALL_INFINITY_BITS ==> r == INFINITY_BITS + EXPONENT_STEP / 2 + (m
            - SMALL_INFINITY_BITS) % 0x40_0000 * 0x2000_0000,
{
    if m > SMALL_INFINITY_BITS {
        return INFINITY_BITS + EXPONENT_STEP / 2 + ((m - SMALL_INFINITY_BITS) % 0x40_0000) as u64
            * 0x2000_0000;
    }
    if m == SMALL_INFINITY_BITS {
        return INFINITY_BITS;
    }
    if m == 0 {
        assert(0 * pow2(925) == 0) by (nonlinear_arith);
        return 0;
    }
    if m < SMALL_EXPONENT_STEP {
        return normalised(m as u64, 926);
    }
    proof {
        lemma_widened_normal(m as int);
    }
    m as u64 * 0x2000_0000 + 896 * EXPONENT_STEP
}

impl Real {
    /// The 64-bit floating-point number that a 32-bit one is, given by its
    /// bits.
    pub fn from_motion(bits: u32) -> (r: Real)
        ensures
            r == widened(bits),
            is_widened(r, bits),
    {
        let r = if bits >= SMALL_SIGN_WEIGHT {
            Real { bits: SIGN_WEIGHT + widened_magnitude(bits - SMALL_SIGN_WEIGHT) }
        } else {
            Real { bits: widened_magnitude(bits) }
        };
        proof {
            assert(is_widened(r, bits));
            lemma_widened_is_unique(r, widened(bits), bits);
        }
        r
    }
}

/// Every count is a floating-point number: there is one, and `whole` is it.
pub proof fn law_every_count_is_a_number(n: i32)
    ensures
        is_whole(whole(n as int), n as int),
        forall|r: Real| is_whole(r, n as int) ==> r == whole(n as int),
{
    let p = pow2(1074) as int;
    vstd::arithmetic::power2::lemma2_to64();
    if n == 0 {
        assert(0 * p == 0);
        assert(is_whole(Real { bits: 0 }, 0));
    } else {
        let size = if n < 0 {
            -(n as int)
        } else {
            n as int
        };
        lemma_normalised(size, 1075, 0);
        let bits = normal_bits(size, 1075) as u64;
        if n < 0 {
            assert(-(size * p) == n * p) by (nonlinear_arith)
                requires
                    size == -n,
            ;
            assert(is_whole(Real { bits: (SIGN_WEIGHT + bits) as u64 }, n as int));
        } else {
            assert(is_whole(Real { bits }, n as int));
        }
    }
    assert forall|r: Real| is_whole(r, n as int) implies r == whole(n as int) by {
        lemma_whole_is_unique(r, whole(n as int), n as int);
    }
}

/// Counts are carried over as they are: zero and one are the floating-point
/// numbers zero and one, what one more or less counts is added up, and the
/// order of the counts is that of the numbers.
pub proof fn law_counts_are_carried_over(m: i32, n: i32)
    ensures
        whole(0) == (Real { bits: 0 }),
        whole(1) == (Real { bits: 0x3ff0_0000_0000_0000 }),
        whole(m as int).is_finite(),
        i32::MIN <= m + n <= i32::MAX ==> whole(m + n).units() == whole(m as int).units() + whole(
            n as int,
        ).units(),
        whole(m as int).less(whole(n as int)) <==> m < n,
        whole(m as int).equals(whole(n as int)) <==> m == n,
{
    let p = pow2(1074) as int;
    vstd::arithmetic::power2::lemma_pow2_pos(1074);
    law_every_count_is_a_number(m);
    law_every_count_is_a_number(n);
    law_every_count_is_a_number(0);
    law_every_count_is_a_number(1);
    law_rank_is_the_order_of_numbers(whole(m as int), whole(n as int));
    assert((m < n <==> m * p < n * p) && (m == n <==> m * p == n * p)) by (nonlinear_arith)
        requires
            p > 0,
    ;
    if i32::MIN <= m + n <= i32::MAX {
        law_every_count_is_a_number((m + n) as i32);
        assert((m + n) * p == m * p + n * p) by (nonlinear_arith);
    }
    let one = Real { bits: 0x3ff0_0000_0000_0000 };
    vstd::arithmetic::power2::lemma2_to64_rest();
    vstd::arithmetic::power2::lemma_pow2_adds(52, 1022);
    assert(0x3ff0_0000_0000_0000int / 0x10_0000_0000_0000 == 1023);
    assert(0x3ff0_0000_0000_0000int % 0x10_0000_0000_0000 == 0);
    assert(one.units() == pow2(52) * pow2(1022));
    assert(1 * p == p);
    assert(is_whole(one, 1));
}

/// The magnitude of a 32-bit floating-point number has bits as a 64-bit one.
proof fn lemma_widened_magnitude(m: int) -> (r: u64)
    requires
        0 <= m < SMALL_INFINITY_BITS,
    ensures
        r < INFINITY_BITS,
        magnitude_units(r as int) == small_units(m),
{
    if m == 0 {
        assert(0 * pow2(925) == 0) by (nonlinear_arith);
        0
    } else if m < SMALL_EXPONENT_STEP {
        vstd::arithmetic::power2::lemma2_to64();
        lemma_normalised(m, 926, 0);
        normal_bits(m, 926) as u64
    } else {
        lemma_widened_normal(m);
        (m * 0x2000_0000 + 896 * EXPONENT_STEP) as u64
    }
}

/// Every 32-bit floating-point number is a 64-bit one: there is one, and
/// `widened` is it.
pub proof fn law_every_motion_is_a_number(bits: u32)
    ensures
        is_widened(widened(bits), bits),
        forall|r: Real| is_widened(r, bits) ==> r == widened(bits),
{
    let m = small_magnitude(bits);
    let size = if m < SMALL_INFINITY_BITS {
        lemma_widened_magnitude(m) as int
    } else if m == SMALL_INFINITY_BITS {
        INFINITY_BITS as int
    } else {
        INFINITY_BITS + EXPONENT_STEP / 2 + (m - SMALL_INFINITY_BITS) % 0x40_0000 * 0x2000_0000
    };
    let sign = if bits >= SMALL_SIGN_WEIGHT {
        SIGN_WEIGHT as int
    } else {
        0
    };
    assert(is_widened(Real { bits: (sign + size) as u64 }, bits));
    assert forall|r: Real| is_widened(r, bits) implies r == widened(bits) by {
        lemma_widened_is_unique(r, widened(bits), bits);
    }
}

/// A 32-bit number keeps its sign, an infinity stays one and what is no number
/// stays none. One with a full significand moves its fraction up and its
/// exponent over; below that the numbers go on in even steps to zero.
pub proof fn law_motions_are_carried_over(bits: u32)
    ensures
        bits >= 0x8000_0000 ==> widened(bits).bits == widened((bits - 0x8000_0000) as u32).bits
            + 0x8000_0000_0000_0000,
        bits < 0x8000_0000 ==> widened(bits).bits < 0x8000_0000_0000_0000,
        bits < 0x7f80_0000 ==> widened(bits).is_finite(),
        0x80_0000 <= bits < 0x7f80_0000 ==> widened(bits).bits == bits * 0x2000_0000
            + 0x3800_0000_0000_0000,
        bits <= 0x80_0000 ==> 0x80_0000 * widened(bits).units() == bits * widened(
            0x80_0000,
        ).units(),
        bits == 0x7f80_0000 ==> widened(bits).bits == 0x7ff0_0000_0000_0000,
        0x7f80_0000 < bits < 0x8000_0000 ==> widened(bits).is_nan(),
{
    law_every_motion_is_a_number(bits);
    if bits >= SMALL_SIGN_WEIGHT {
        let plain = (bits - SMALL_SIGN_WEIGHT) as u32;
        law_every_motion_is_a_number(plain);
        assert(is_widened(
            Real { bits: (widened(plain).bits + SIGN_WEIGHT) as u64 },
            bits,
        ));
    }
    if 0x80_0000 <= bits < 0x7f80_0000 {
        lemma_widened_normal(bits as int);
        let r = Real { bits: (bits * 0x2000_0000 + 0x3800_0000_0000_0000) as u64 };
        assert(is_widened(r, bits));
    }
    if bits <= 0x80_0000 {
        law_every_motion_is_a_number(0x80_0000);
        let p = pow2(925) as int;
        assert(small_units(0x80_0000) == 0x80_0000 * p);
        assert(small_units(bits as int) == bits * p);
        assert(0x80_0000 * (bits * p) == bits * (0x80_0000 * p)) by (nonlinear_arith);
    }
}

} // verus!
