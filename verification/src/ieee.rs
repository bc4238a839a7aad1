//! IEEE 754 bit patterns, read as integers.
//!
//! A float is held as its bit pattern. Its magnitude (the pattern without the sign bit)
//! orders non-NaN floats of one sign, so comparisons, absolute values and maxima are
//! decided here on integers alone.

use vstd::arithmetic::mul::*;
use vstd::arithmetic::power2::*;
use vstd::prelude::*;

verus! {

/// The bit pattern of a 32-bit float.
#[derive(Clone, Copy, Debug, PartialEq, Eq, Structural)]
pub struct Binary32 {
    pub bits: u32,
}

/// The bit pattern of a 64-bit float.
#[derive(Clone, Copy, Debug, PartialEq, Eq, Structural)]
pub struct Binary64 {
    pub bits: u64,
}

/// Fraction bits of a 32-bit float.
pub const FRACTION_BITS_32: u32 = 23;

/// Fraction bits of a 64-bit float.
pub const FRACTION_BITS_64: u32 = 52;

/// Magnitude of the 32-bit infinities; larger magnitudes are NaNs.
pub const INFINITY_32: u32 = 0x7f80_0000;

/// Magnitude of the 64-bit infinities; larger magnitudes are NaNs.
pub const INFINITY_64: u64 = 0x7ff0_0000_0000_0000;

/// The sign bit of a 32-bit float.
pub const SIGN_32: u32 = 0x8000_0000;

/// The sign bit of a 64-bit float.
pub const SIGN_64: u64 = 0x8000_0000_0000_0000;

/// The bit pattern of 0.01 as a 32-bit float.
pub const HUNDREDTH_32: u32 = 0x3c23_d70a;

/// The bit pattern of 0.01 as a 64-bit float.
pub const HUNDREDTH_64: u64 = 0x3f84_7ae1_47ae_147b;

/// What a magnitude with `fraction_bits` fraction bits is worth, counted in units of the
/// smallest positive subnormal. An infinity counts as the next power of two past the
/// largest finite float.
pub open spec fn magnitude_units(magnitude: nat, fraction_bits: nat) -> nat {
    let exponent = magnitude / pow2(fraction_bits);
    let fraction = magnitude % pow2(fraction_bits);
    if exponent == 0 {
        fraction
    } else {
        (pow2(fraction_bits) + fraction) * pow2((exponent - 1) as nat)
    }
}

impl Binary32 {
    pub open spec fn spec_magnitude(self) -> int {
        if self.bits >= SIGN_32 {
            self.bits - SIGN_32
        } else {
            self.bits as int
        }
    }

    pub open spec fn spec_is_nan(self) -> bool {
        self.spec_magnitude() > INFINITY_32
    }

    /// The value in units of the smallest positive subnormal, 2^-149.
    pub open spec fn units(self) -> int {
        let magnitude = magnitude_units(self.spec_magnitude() as nat, FRACTION_BITS_32 as nat);
        if self.bits >= SIGN_32 {
            -(magnitude as int)
        } else {
            magnitude as int
        }
    }

    /// This float is the integer `n`.
    pub open spec fn is_integer(self, n: int) -> bool {
        !self.spec_is_nan() && self.units() == n * pow2(149)
    }

    /// The pattern with the sign bit cleared: the absolute value.
    pub fn magnitude(self) -> (r: u32)
        ensures
            r == self.spec_magnitude(),
    {
        if self.bits >= SIGN_32 {
            self.bits - SIGN_32
        } else {
            self.bits
        }
    }

    pub fn is_nan(self) -> (r: bool)
        ensures
            r == self.spec_is_nan(),
    {
        self.magnitude() > INFINITY_32
    }

    /// The place of this float in the numeric order, `None` for a NaN; both zeros share
    /// place 0.
    pub open spec fn spec_order_key(self) -> Option<i64> {
        if self.spec_is_nan() {
            None
        } else if self.bits >= SIGN_32 {
            Some((-self.spec_magnitude()) as i64)
        } else {
            Some(self.bits as i64)
        }
    }

    /// The place of this float in the numeric order, `None` for a NaN.
    pub fn order_key(self) -> (r: Option<i64>)
        ensures
            r == self.spec_order_key(),
    {
        if self.is_nan() {
            None
        } else if self.bits >= SIGN_32 {
            Some(-((self.bits - SIGN_32) as i64))
        } else {
            Some(self.bits as i64)
        }
    }
}

impl Binary64 {
    pub open spec fn spec_magnitude(self) -> int {
        if self.bits >= SIGN_64 {
            self.bits - SIGN_64
        } else {
            self.bits as int
        }
    }

    pub open spec fn spec_is_nan(self) -> bool {
        self.spec_magnitude() > INFINITY_64
    }

    /// The value in units of the smallest positive subnormal, 2^-1074.
    pub open spec fn units(self) -> int {
        let magnitude = magnitude_units(self.spec_magnitude() as nat, FRACTION_BITS_64 as nat);
        if self.bits >= SIGN_64 {
            -(magnitude as int)
        } else {
            magnitude as int
        }
    }

    /// This float is the integer `n`.
    pub open spec fn is_integer(self, n: int) -> bool {
        !self.spec_is_nan() && self.units() == n * pow2(1074)
    }

    /// The pattern with the sign bit cleared: the absolute value.
    pub fn magnitude(self) -> (r: u64)
        ensures
            r == self.spec_magnitude(),
    {
        if self.bits >= SIGN_64 {
            self.bits - SIGN_64
        } else {
            self.bits
        }
    }

    pub fn is_nan(self) -> (r: bool)
        ensures
            r == self.spec_is_nan(),
    {
        self.magnitude() > INFINITY_64
    }

    /// The place of this float in the numeric order, `None` for a NaN; both zeros share
    /// place 0.
    pub open spec fn spec_order_key(self) -> Option<i64> {
        if self.spec_is_nan() {
            None
        } else if self.bits >= SIGN_64 {
            Some((-self.spec_magnitude()) as i64)
        } else {
            Some(self.bits as i64)
        }
    }

    /// The place of this float in the numeric order, `None` for a NaN.
    pub fn order_key(self) -> (r: Option<i64>)
        ensures
            r == self.spec_order_key(),
    {
        if self.is_nan() {
            None
        } else if self.bits >= SIGN_64 {
            Some(-((self.bits - SIGN_64) as i64))
        } else {
            Some(self.bits as i64)
        }
    }
}

impl Binary64 {
    /// Greater than `other`; never so where either is a NaN.
    pub open spec fn spec_exceeds(self, other: Binary64) -> bool {
        !self.spec_is_nan() && !other.spec_is_nan() && self.spec_order_key()->0
            > other.spec_order_key()->0
    }

    /// Greater than `other`; never so where either is a NaN.
    pub fn exceeds(self, other: Binary64) -> (r: bool)
        ensures
            r == self.spec_exceeds(other),
    {
        match (self.order_key(), other.order_key()) {
            (Some(a), Some(b)) => a > b,
            _ => false,
        }
    }
}

impl Binary64 {
    /// A number that is not below `other`.
    pub open spec fn spec_reaches(self, other: Binary64) -> bool {
        !self.spec_is_nan() && !other.spec_exceeds(self)
    }

    /// A number that is not below `other`.
    pub fn reaches(self, other: Binary64) -> (r: bool)
        ensures
            r == self.spec_reaches(other),
    {
        !self.is_nan() && !other.exceeds(self)
    }
}

impl Binary32 {
    /// Greater than `other`; never so where either is a NaN.
    pub open spec fn spec_exceeds(self, other: Binary32) -> bool {
        !self.spec_is_nan() && !other.spec_is_nan() && self.spec_order_key()->0
            > other.spec_order_key()->0
    }

    /// Greater than `other`; never so where either is a NaN.
    pub fn exceeds(self, other: Binary32) -> (r: bool)
        ensures
            r == self.spec_exceeds(other),
    {
        match (self.order_key(), other.order_key()) {
            (Some(a), Some(b)) => a > b,
            _ => false,
        }
    }
}

impl Binary64 {
    /// This float, but no less than `low` and no more than `high`; a NaN stays one.
    pub open spec fn spec_clamp(self, low: Binary64, high: Binary64) -> Binary64 {
        if low.spec_exceeds(self) {
            low
        } else if self.spec_exceeds(high) {
            high
        } else {
            self
        }
    }

    /// This float, but no less than `low` and no more than `high`; a NaN stays one.
    pub fn clamp(self, low: Binary64, high: Binary64) -> (r: Binary64)
        requires
            !low.spec_is_nan(),
            !high.spec_is_nan(),
            !low.spec_exceeds(high),
        ensures
            r == self.spec_clamp(low, high),
    {
        if low.exceeds(self) {
            low
        } else if self.exceeds(high) {
            high
        } else {
            self
        }
    }
}

/// Magnitudes order as what they are worth.
pub proof fn lemma_magnitude_units_increase(a: nat, b: nat, fraction_bits: nat)
    requires
        a < b,
    ensures
        magnitude_units(a, fraction_bits) < magnitude_units(b, fraction_bits),
{
    let p = pow2(fraction_bits);
    lemma_pow2_pos(fraction_bits);
    let ea = a / p;
    let fa = a % p;
    let eb = b / p;
    let fb = b % p;
    vstd::arithmetic::div_mod::lemma_fundamental_div_mod(a as int, p as int);
    vstd::arithmetic::div_mod::lemma_fundamental_div_mod(b as int, p as int);
    vstd::arithmetic::div_mod::lemma_div_is_ordered(a as int, b as int, p as int);
    if ea == eb {
        assert(fa < fb);
        if ea > 0 {
            let q = pow2((ea - 1) as nat);
            lemma_pow2_pos((ea - 1) as nat);
            lemma_mul_strict_inequality((p + fa) as int, (p + fb) as int, q as int);
        }
    } else {
        let q = pow2((eb - 1) as nat);
        lemma_pow2_pos((eb - 1) as nat);
        assert(p * q <= (p + fb) * q) by (nonlinear_arith);
        if ea == 0 {
            assert(p <= p * q) by (nonlinear_arith)
                requires
                    q >= 1,
            ;
        } else {
            let s = pow2((ea - 1) as nat);
            lemma_pow2_pos((ea - 1) as nat);
            lemma_pow2_unfold(ea);
            assert(pow2(ea) == 2 * s);
            if ea < eb - 1 {
                lemma_pow2_strictly_increases(ea, (eb - 1) as nat);
            }
            assert((p + fa) * s < p * (2 * s)) by (nonlinear_arith)
                requires
                    fa < p,
                    s >= 1,
            ;
            assert(p * (2 * s) <= p * q) by (nonlinear_arith)
                requires
                    2 * s <= q,
            ;
        }
    }
}

/// The order keys of two 32-bit floats compare as their values do.
pub proof fn law_order_key_32(a: Binary32, b: Binary32)
    requires
        !a.spec_is_nan(),
        !b.spec_is_nan(),
    ensures
        a.spec_order_key()->0 < b.spec_order_key()->0 <==> a.units() < b.units(),
        a.spec_order_key()->0 == b.spec_order_key()->0 <==> a.units() == b.units(),
{
    lemma_signed_units(a.spec_magnitude() as nat, b.spec_magnitude() as nat, FRACTION_BITS_32 as nat);
}

/// The order keys of two 64-bit floats compare as their values do.
pub proof fn law_order_key_64(a: Binary64, b: Binary64)
    requires
        !a.spec_is_nan(),
        !b.spec_is_nan(),
    ensures
        a.spec_order_key()->0 < b.spec_order_key()->0 <==> a.units() < b.units(),
        a.spec_order_key()->0 == b.spec_order_key()->0 <==> a.units() == b.units(),
{
    lemma_signed_units(a.spec_magnitude() as nat, b.spec_magnitude() as nat, FRACTION_BITS_64 as nat);
}

proof fn lemma_signed_units(a: nat, b: nat, fraction_bits: nat)
    ensures
        a < b <==> magnitude_units(a, fraction_bits) < magnitude_units(b, fraction_bits),
        a == b <==> magnitude_units(a, fraction_bits) == magnitude_units(b, fraction_bits),
        a > 0 <==> magnitude_units(a, fraction_bits) > 0,
        b > 0 <==> magnitude_units(b, fraction_bits) > 0,
{
    if a < b {
        lemma_magnitude_units_increase(a, b, fraction_bits);
    }
    if b < a {
        lemma_magnitude_units_increase(b, a, fraction_bits);
    }
    lemma_pow2_pos(fraction_bits);
    assert(magnitude_units(0, fraction_bits) == 0) by {
        vstd::arithmetic::div_mod::lemma_basic_div(0, pow2(fraction_bits) as int);
        vstd::arithmetic::div_mod::lemma_small_mod(0, pow2(fraction_bits));
    }
    if a > 0 {
        lemma_magnitude_units_increase(0, a, fraction_bits);
    }
    if b > 0 {
        lemma_magnitude_units_increase(0, b, fraction_bits);
    }
}

/// A magnitude whose significand is `n` times a power of two is worth `n` times a power
/// of two.
pub proof fn lemma_magnitude_of_product(
    magnitude: nat,
    fraction_bits: nat,
    exponent: nat,
    n: nat,
    shift: nat,
)
    requires
        exponent >= 1,
        exponent * pow2(fraction_bits) <= magnitude < (exponent + 1) * pow2(fraction_bits),
        pow2(fraction_bits) + (magnitude - exponent * pow2(fraction_bits)) == n * pow2(shift),
    ensures
        magnitude_units(magnitude, fraction_bits) == n * pow2((shift + exponent - 1) as nat),
{
    let p = pow2(fraction_bits);
    let q = pow2((exponent - 1) as nat);
    let fraction = magnitude - exponent * p;
    lemma_pow2_pos(fraction_bits);
    assert((exponent + 1) * p == exponent * p + p) by (nonlinear_arith);
    vstd::arithmetic::div_mod::lemma_fundamental_div_mod_converse(
        magnitude as int,
        p as int,
        exponent as int,
        fraction,
    );
    lemma_pow2_adds(shift, (exponent - 1) as nat);
    lemma_mul_is_associative(n as int, pow2(shift) as int, q as int);
}

/// The bit pattern of a nonzero 64-bit integer float.
pub proof fn lemma_is_integer_64(b: Binary64, exponent: nat, n: nat)
    requires
        1 <= exponent <= 1075,
        b.spec_magnitude() <= INFINITY_64,
        exponent * 0x10_0000_0000_0000 <= b.spec_magnitude() < (exponent + 1) * 0x10_0000_0000_0000,
        0x10_0000_0000_0000 + (b.spec_magnitude() - exponent * 0x10_0000_0000_0000) == n * pow2(
            (1075 - exponent) as nat,
        ),
    ensures
        b.bits < SIGN_64 ==> b.is_integer(n as int),
        b.bits >= SIGN_64 ==> b.is_integer(-(n as int)),
{
    lemma2_to64_rest();
    lemma_magnitude_of_product(
        b.spec_magnitude() as nat,
        52,
        exponent,
        n,
        (1075 - exponent) as nat,
    );
    lemma_mul_unary_negation(n as int, pow2(1074) as int);
}

/// A clamped number lies between the bounds, and a number that does so already stays as
/// it is.
pub proof fn law_clamp(value: Binary64, low: Binary64, high: Binary64)
    requires
        !value.spec_is_nan(),
        !low.spec_is_nan(),
        !high.spec_is_nan(),
        low.units() <= high.units(),
    ensures
        low.units() <= value.spec_clamp(low, high).units() <= high.units(),
        low.units() <= value.units() <= high.units() ==> value.spec_clamp(low, high) == value,
{
    law_order_key_64(low, value);
    law_order_key_64(value, low);
    law_order_key_64(value, high);
    law_order_key_64(high, value);
}

/// The peak of a signal with silence added is the peak of the signal.
pub proof fn law_peak_ignores_silence(signal: Seq<Binary32>, silence: Seq<Binary32>, top: Binary32)
    requires
        forall|i: int| 0 <= i < silence.len() ==> (#[trigger] silence[i]).bits == 0,
    ensures
        is_peak(signal + silence, top) <==> is_peak(signal, top),
{
    let both = signal + silence;
    assert forall|i: int| 0 <= i < signal.len() implies both[i] == signal[i] by {}
    if is_peak(signal, top) {
        assert forall|i: int|
            0 <= i < both.len() && !(#[trigger] both[i]).spec_is_nan() implies both[i].spec_magnitude()
            <= top.bits by {
            if i < signal.len() {
                assert(both[i] == signal[i]);
            } else {
                assert(both[i] == silence[i - signal.len()]);
            }
        }
        if top.bits != 0 {
            let k = choose|k: int|
                0 <= k < signal.len() && (#[trigger] signal[k]).spec_magnitude() == top.bits;
            assert(both[k].spec_magnitude() == top.bits);
        }
    }
    if is_peak(both, top) {
        assert forall|i: int|
            0 <= i < signal.len() && !(#[trigger] signal[i]).spec_is_nan() implies signal[i].spec_magnitude()
            <= top.bits by {
            assert(both[i] == signal[i]);
        }
        if top.bits != 0 {
            let k = choose|k: int|
                0 <= k < both.len() && (#[trigger] both[k]).spec_magnitude() == top.bits;
            if k >= signal.len() {
                assert(both[k] == silence[k - signal.len()]);
            }
            assert(signal[k].spec_magnitude() == top.bits);
        }
    }
}

/// The bit pattern 0x3f800000 is the number one.
pub proof fn lemma_one_32()
    ensures
        (Binary32 { bits: 0x3f80_0000 }).is_integer(1),
        (Binary32 { bits: 0x3f80_0000 }).spec_order_key() == Some(0x3f80_0000i64),
{
    lemma2_to64();
    lemma_magnitude_of_product(0x3f80_0000, 23, 127, 1, 23);
}

/// The bit pattern 0x3ff0000000000000 is the number one.
pub proof fn lemma_one_64()
    ensures
        (Binary64 { bits: 0x3ff0_0000_0000_0000 }).is_integer(1),
        (Binary64 { bits: 0x3ff0_0000_0000_0000 }).spec_order_key() == Some(0x3ff0_0000_0000_0000i64),
{
    lemma2_to64_rest();
    lemma_is_integer_64(Binary64 { bits: 0x3ff0_0000_0000_0000 }, 1023, 1);
}

/// `top` is the largest absolute value of a signal, NaNs left aside; zero for a signal
/// without a number in it.
pub open spec fn is_peak(signal: Seq<Binary32>, top: Binary32) -> bool {
    &&& top.bits <= INFINITY_32
    &&& forall|i: int|
        0 <= i < signal.len() && !(#[trigger] signal[i]).spec_is_nan()
            ==> signal[i].spec_magnitude() <= top.bits
    &&& top.bits == 0 || exists|i: int|
        0 <= i < signal.len() && (#[trigger] signal[i]).spec_magnitude() == top.bits
}

/// The largest absolute value of a signal of 32-bit floats, NaNs left aside; zero for a
/// signal without a number in it.
pub fn peak(signal: &[Binary32]) -> (r: Binary32)
    ensures
        is_peak(signal@, r),
{
    let mut top: u32 = 0;
    for i in 0..signal.len()
        invariant
            top <= INFINITY_32,
            forall|j: int|
                0 <= j < i && !(#[trigger] signal@[j]).spec_is_nan() ==> signal@[j].spec_magnitude()
                    <= top,
            top == 0 || exists|j: int|
                0 <= j < i && (#[trigger] signal@[j]).spec_magnitude() == top,
    {
        let magnitude: u32 = signal[i].magnitude();
        if magnitude <= INFINITY_32 && magnitude > top {
            top = magnitude;
            assert(signal@[i as int].spec_magnitude() == top);
        }
    }
    Binary32 { bits: top }
}

/// One 32-bit float exceeds another where both are numbers and its value is larger.
pub proof fn law_exceeds_32(a: Binary32, b: Binary32)
    ensures
        a.spec_exceeds(b) <==> !a.spec_is_nan() && !b.spec_is_nan() && a.units() > b.units(),
{
    if !a.spec_is_nan() && !b.spec_is_nan() {
        law_order_key_32(b, a);
    }
}

/// One 64-bit float exceeds another where both are numbers and its value is larger.
pub proof fn law_exceeds_64(a: Binary64, b: Binary64)
    ensures
        a.spec_exceeds(b) <==> !a.spec_is_nan() && !b.spec_is_nan() && a.units() > b.units(),
{
    if !a.spec_is_nan() && !b.spec_is_nan() {
        law_order_key_64(b, a);
    }
}

/// A 64-bit float reaches a threshold where it is a number whose value is not smaller; a
/// threshold that is no number holds no number back.
pub proof fn law_reaches_64(a: Binary64, b: Binary64)
    ensures
        a.spec_reaches(b) <==> !a.spec_is_nan() && (b.spec_is_nan() || a.units() >= b.units()),
{
    law_exceeds_64(b, a);
}

/// A clamped number is the one of the range nearest to it: the bounds where it lies beyond
/// them. What is no number stays as it is.
pub proof fn law_clamp_nearest(value: Binary64, low: Binary64, high: Binary64)
    requires
        !low.spec_is_nan(),
        !high.spec_is_nan(),
        low.units() <= high.units(),
    ensures
        value.spec_is_nan() ==> value.spec_clamp(low, high) == value,
        !value.spec_is_nan() && value.units() < low.units() ==> value.spec_clamp(low, high) == low,
        !value.spec_is_nan() && value.units() > high.units() ==> value.spec_clamp(low, high)
            == high,
        value.spec_clamp(low, high).spec_clamp(low, high) == value.spec_clamp(low, high),
{
    law_exceeds_64(low, value);
    law_exceeds_64(value, high);
    law_exceeds_64(low, high);
    law_exceeds_64(low, low);
    law_exceeds_64(high, high);
    law_exceeds_64(low, value.spec_clamp(low, high));
    law_exceeds_64(value.spec_clamp(low, high), high);
}

/// Flipping the sign bit of a float negates its value, and the value of a float without
/// the sign bit is not negative.
pub proof fn law_sign_negates_32(a: Binary32, b: Binary32)
    requires
        a.bits < SIGN_32,
        b.bits == a.bits + SIGN_32,
    ensures
        a.units() >= 0,
        b.units() == -a.units(),
        a.spec_is_nan() <==> b.spec_is_nan(),
{
}

/// Flipping the sign bit of a float negates its value, and the value of a float without
/// the sign bit is not negative.
pub proof fn law_sign_negates_64(a: Binary64, b: Binary64)
    requires
        a.bits < SIGN_64,
        b.bits == a.bits + SIGN_64,
    ensures
        a.units() >= 0,
        b.units() == -a.units(),
        a.spec_is_nan() <==> b.spec_is_nan(),
{
}

/// The peak of a signal is a number without a sign that no number of the signal exceeds in
/// value, whatever its sign, and some sample takes it on, unless it is zero.
pub proof fn law_peak_bounds(signal: Seq<Binary32>, top: Binary32, i: int)
    requires
        is_peak(signal, top),
        0 <= i < signal.len(),
        !signal[i].spec_is_nan(),
    ensures
        !top.spec_is_nan(),
        -top.units() <= signal[i].units() <= top.units(),
        top.units() > 0 ==> exists|k: int|
            0 <= k < signal.len() && ((#[trigger] signal[k]).units() == top.units()
                || signal[k].units() == -top.units()),
{
    lemma_signed_units(
        signal[i].spec_magnitude() as nat,
        top.spec_magnitude() as nat,
        FRACTION_BITS_32 as nat,
    );
    lemma_signed_units(0, top.spec_magnitude() as nat, FRACTION_BITS_32 as nat);
    if top.units() > 0 {
        let k = choose|k: int|
            0 <= k < signal.len() && !(#[trigger] signal[k]).spec_is_nan()
                && signal[k].spec_magnitude() == top.bits;
        assert(signal[k].units() == top.units() || signal[k].units() == -top.units());
    }
}

/// The peak of two signals one behind the other is the larger of their peaks, in either
/// order.
pub proof fn law_peak_of_both(
    a: Seq<Binary32>,
    b: Seq<Binary32>,
    top_a: Binary32,
    top_b: Binary32,
    top: Binary32,
)
    requires
        is_peak(a, top_a),
        is_peak(b, top_b),
        is_peak(a + b, top),
    ensures
        top == if top_a.units() >= top_b.units() {
            top_a
        } else {
            top_b
        },
        is_peak(b + a, top),
{
    let both = a + b;
    let swapped = b + a;
    assert forall|i: int| 0 <= i < a.len() implies both[i] == a[i] && swapped[i + b.len()]
        == a[i] by {}
    assert forall|i: int| 0 <= i < b.len() implies both[i + a.len()] == b[i] && swapped[i]
        == b[i] by {}
    lemma_signed_units(
        top_a.spec_magnitude() as nat,
        top_b.spec_magnitude() as nat,
        FRACTION_BITS_32 as nat,
    );
    if top_a.bits > 0 {
        let k = choose|k: int|
            0 <= k < a.len() && !(#[trigger] a[k]).spec_is_nan() && a[k].spec_magnitude()
                == top_a.bits;
        assert(both[k] == a[k]);
    }
    if top_b.bits > 0 {
        let k = choose|k: int|
            0 <= k < b.len() && !(#[trigger] b[k]).spec_is_nan() && b[k].spec_magnitude()
                == top_b.bits;
        assert(both[k + a.len()] == b[k]);
    }
    if top.bits > 0 {
        let k = choose|k: int|
            0 <= k < both.len() && !(#[trigger] both[k]).spec_is_nan() && both[k].spec_magnitude()
                == top.bits;
        if k < a.len() {
            assert(both[k] == a[k]);
            assert(swapped[k + b.len()] == both[k]);
        } else {
            assert(both[k] == b[k - a.len()]);
            assert(swapped[k - a.len()] == both[k]);
        }
    }
    assert forall|i: int|
        0 <= i < swapped.len() && !(#[trigger] swapped[i]).spec_is_nan() implies swapped[i].spec_magnitude()
        <= top.bits by {
        if i < b.len() {
            assert(both[i + a.len()] == swapped[i]);
        } else {
            assert(both[i - b.len()] == swapped[i]);
        }
    }
}

/// A 64-bit float is worth nothing where all its bits but the sign are zero.
pub proof fn law_zero_64(a: Binary64)
    ensures
        a.units() == 0 <==> a.bits == 0 || a.bits == SIGN_64,
        a.units() == 0 <==> a.spec_magnitude() == 0,
{
    lemma_signed_units(a.spec_magnitude() as nat, a.spec_magnitude() as nat, 52);
}

/// The 64-bit float nearest to one `n`th is the one with the significand `m` and the
/// exponent field `exponent`, where its value is nearer to one `n`th than half the distance
/// between floats there.
pub proof fn lemma_nearest_64(s: Binary64, t: Binary64, exponent: nat, m: nat, n: nat)
    requires
        1 <= exponent <= 1075,
        s.bits < INFINITY_64,
        exponent * 0x10_0000_0000_0000 < s.bits < (exponent + 1) * 0x10_0000_0000_0000 - 1,
        m == 0x10_0000_0000_0000 + (s.bits - exponent * 0x10_0000_0000_0000),
        n > 0,
        t.units() > 0,
        ({
            let q = pow2((exponent - 1) as nat);
            &&& -(n * q) <= 2 * (n * t.units() - pow2(1074)) <= n * q
            &&& -(n * q) < 2 * (n * (m * q) - pow2(1074)) < n * q
        }),
    ensures
        t.units() == s.units(),
        s.units() == m * pow2((exponent - 1) as nat),
        t == s,
{
    lemma2_to64();
    lemma2_to64_rest();
    let q = pow2((exponent - 1) as nat);
    lemma_magnitude_of_product(s.bits as nat, 52, exponent, m, 0);
    lemma_magnitude_of_product((s.bits + 1) as nat, 52, exponent, m + 1, 0);
    lemma_magnitude_of_product((s.bits - 1) as nat, 52, exponent, (m - 1) as nat, 0);
    lemma_nearest(
        s.bits as nat,
        t.spec_magnitude() as nat,
        52,
        m,
        n,
        q,
        pow2(1074),
    );
}

/// The 32-bit float nearest to one `n`th is the one with the significand `m` and the
/// exponent field `exponent`, where its value is nearer to one `n`th than half the distance
/// between floats there.
pub proof fn lemma_nearest_32(s: Binary32, t: Binary32, exponent: nat, m: nat, n: nat)
    requires
        1 <= exponent <= 150,
        s.bits < INFINITY_32,
        exponent * 0x80_0000 < s.bits < (exponent + 1) * 0x80_0000 - 1,
        m == 0x80_0000 + (s.bits - exponent * 0x80_0000),
        n > 0,
        t.units() > 0,
        ({
            let q = pow2((exponent - 1) as nat);
            &&& -(n * q) <= 2 * (n * t.units() - pow2(149)) <= n * q
            &&& -(n * q) < 2 * (n * (m * q) - pow2(149)) < n * q
        }),
    ensures
        t.units() == s.units(),
        s.units() == m * pow2((exponent - 1) as nat),
        t == s,
{
    lemma2_to64();
    let q = pow2((exponent - 1) as nat);
    lemma_magnitude_of_product(s.bits as nat, 23, exponent, m, 0);
    lemma_magnitude_of_product((s.bits + 1) as nat, 23, exponent, m + 1, 0);
    lemma_magnitude_of_product((s.bits - 1) as nat, 23, exponent, (m - 1) as nat, 0);
    lemma_nearest(
        s.bits as nat,
        t.spec_magnitude() as nat,
        23,
        m,
        n,
        q,
        pow2(149),
    );
}

proof fn lemma_nearest(s: nat, t: nat, fraction_bits: nat, m: nat, n: nat, q: nat, one: nat)
    requires
        s > 0,
        m > 0,
        n > 0,
        magnitude_units(s, fraction_bits) == m * q,
        magnitude_units(s + 1, fraction_bits) == (m + 1) * q,
        magnitude_units((s - 1) as nat, fraction_bits) == (m - 1) * q,
        -(n * q) <= 2 * (n * magnitude_units(t, fraction_bits) - one) <= n * q,
        -(n * q) < 2 * (n * (m * q) - one) < n * q,
    ensures
        t == s,
{
    let u = magnitude_units(t, fraction_bits) as int;
    assert(n * ((m + 1) * q) == n * (m * q) + n * q) by (nonlinear_arith);
    assert(n * ((m - 1) * q) == n * (m * q) - n * q) by (nonlinear_arith);
    if t > s {
        if t > s + 1 {
            lemma_magnitude_units_increase(s + 1, t, fraction_bits);
        }
        assert(n * u >= n * ((m + 1) * q)) by (nonlinear_arith)
            requires
                u >= (m + 1) * q,
                n > 0,
        ;
    } else if t < s {
        if t < s - 1 {
            lemma_magnitude_units_increase(t, (s - 1) as nat, fraction_bits);
        }
        assert(n * u <= n * ((m - 1) * q)) by (nonlinear_arith)
            requires
                u <= (m - 1) * q,
                n > 0,
        ;
    }
}

/// The 64-bit float nearest to 0.01 has the bit pattern `HUNDREDTH_64`.
pub proof fn lemma_hundredth_64(t: Binary64)
    requires
        t.units() > 0,
        -(100 * pow2(1015)) <= 2 * (100 * t.units() - pow2(1074)) <= 100 * pow2(1015),
    ensures
        t.bits == HUNDREDTH_64,
{
    lemma2_to64_rest();
    lemma_pow2_adds(1015, 59);
    lemma_pow2_pos(1015);
    let u = pow2(1015);
    assert(pow2(1074) == u * 576460752303423488);
    lemma_nearest_64(Binary64 { bits: HUNDREDTH_64 }, t, 1016, 0x14_7ae1_47ae_147b, 100);
}

/// The 32-bit float nearest to 0.01 has the bit pattern `HUNDREDTH_32`.
pub proof fn lemma_hundredth_32(t: Binary32)
    requires
        t.units() > 0,
        -(100 * pow2(119)) <= 2 * (100 * t.units() - pow2(149)) <= 100 * pow2(119),
    ensures
        t.bits == HUNDREDTH_32,
{
    lemma2_to64();
    lemma_pow2_adds(119, 30);
    lemma_pow2_pos(119);
    let u = pow2(119);
    assert(pow2(149) == u * 0x4000_0000);
    lemma_nearest_32(Binary32 { bits: HUNDREDTH_32 }, t, 120, 0xa3_d70a, 100);
}

/// A float is no number exactly where its bits but the sign lie above those of infinity.
pub proof fn law_nan(a: Binary32, b: Binary64)
    ensures
        a.spec_is_nan() <==> a.bits % 0x8000_0000 > 0x7f80_0000,
        b.spec_is_nan() <==> b.bits % 0x8000_0000_0000_0000 > 0x7ff0_0000_0000_0000,
{
}

} // verus!
