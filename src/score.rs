//! Costs: IEEE-754 binary64 values that are never NaN, kept as their bit
//! pattern and ordered as the real numbers they denote.
use vstd::arithmetic::mul::{lemma_mul_inequality, lemma_mul_strict_inequality};
use vstd::arithmetic::power2::{
    lemma2_to64, lemma2_to64_rest, lemma_pow2_adds, lemma_pow2_pos, lemma_pow2_strictly_increases, pow2,
};
use vstd::prelude::*;

verus! {

/// Mask of the 52 fraction bits.
pub const FRACTION_MASK: u64 = 0xf_ffff_ffff_ffff;

/// Mask of everything but the sign bit.
pub const MAGNITUDE_MASK: u64 = 0x7fff_ffff_ffff_ffff;

/// The biased exponent field (11 bits).
pub open spec fn exponent(bits: u64) -> int {
    ((bits >> 52u64) & 0x7ffu64) as int
}

/// The fraction field (52 bits).
pub open spec fn fraction(bits: u64) -> int {
    (bits & FRACTION_MASK) as int
}

pub open spec fn negative(bits: u64) -> bool {
    bits >> 63u64 == 1
}

pub open spec fn is_nan(bits: u64) -> bool {
    exponent(bits) == 0x7ff && fraction(bits) != 0
}

pub open spec fn is_infinite(bits: u64) -> bool {
    exponent(bits) == 0x7ff && fraction(bits) == 0
}

/// Absolute value of a finite float, counted in units of 2^-1074 (the
/// smallest subnormal), so that every finite value is an integer.
pub open spec fn magnitude(bits: u64) -> int {
    if exponent(bits) == 0 {
        fraction(bits)
    } else {
        (fraction(bits) + pow2(52)) * pow2((exponent(bits) - 1) as nat)
    }
}

/// The real number a finite float denotes, in units of 2^-1074.
pub open spec fn signed_value(bits: u64) -> int {
    if negative(bits) {
        -magnitude(bits)
    } else {
        magnitude(bits)
    }
}

/// `a < b` on the floats that `a` and `b` encode (neither NaN).
pub open spec fn float_lt(a: u64, b: u64) -> bool {
    if is_infinite(a) {
        negative(a) && !(is_infinite(b) && negative(b))
    } else if is_infinite(b) {
        !negative(b)
    } else {
        signed_value(a) < signed_value(b)
    }
}

/// `a == b` on the floats that `a` and `b` encode (neither NaN): `-0.0 == 0.0`.
pub open spec fn float_eq(a: u64, b: u64) -> bool {
    if is_infinite(a) || is_infinite(b) {
        a == b
    } else {
        signed_value(a) == signed_value(b)
    }
}

/// The integer whose order the floats follow: the magnitude bits, negated
/// when the sign bit is set.
pub open spec fn order_key(bits: u64) -> int {
    if negative(bits) {
        -((bits & MAGNITUDE_MASK) as int)
    } else {
        (bits & MAGNITUDE_MASK) as int
    }
}

/// A binary64 value that is not NaN, held as its bit pattern.
#[derive(Clone, Copy, Debug)]
pub struct NotNaNf64 {
    bits: u64,
}

/// The currency of every cost comparison and sum.
pub type Score = NotNaNf64;

impl NotNaNf64 {
    #[verifier::type_invariant]
    pub open spec fn not_nan(self) -> bool {
        !is_nan(self.spec_bits())
    }

    pub closed spec fn spec_bits(self) -> u64 {
        self.bits
    }

    pub closed spec fn spec_zero() -> Score {
        NotNaNf64 { bits: 0 }
    }

    /// The score of the float with bit pattern `bits`, which must not be NaN.
    pub fn new(bits: u64) -> (r: Score)
        requires
            !is_nan(bits),
        ensures
            r.spec_bits() == bits,
    {
        NotNaNf64 { bits }
    }

    /// The score of the float with bit pattern `bits`, or `None` for a NaN.
    pub fn new_checked(bits: u64) -> (r: Option<Score>)
        ensures
            r is None <==> is_nan(bits),
            r matches Some(s) ==> s.spec_bits() == bits,
    {
        let exp = (bits >> 52u64) & 0x7ffu64;
        let frac = bits & FRACTION_MASK;
        if exp == 0x7ffu64 && frac != 0 {
            None
        } else {
            Some(NotNaNf64 { bits })
        }
    }

    /// The score `0.0`.
    pub fn zero() -> (r: Score)
        ensures
            r.spec_bits() == 0,
            r == Score::spec_zero(),
    {
        proof {
            assert(((0u64 >> 52u64) & 0x7ffu64) == 0 && (0u64 & FRACTION_MASK) == 0) by (bit_vector);
        }
        NotNaNf64 { bits: 0 }
    }

    /// The bit pattern of the float.
    pub fn to_bits(&self) -> (r: u64)
        ensures
            r == self.spec_bits(),
    {
        self.bits
    }

    /// The order key of the float, as an `i64`.
    fn key(&self) -> (r: i64)
        ensures
            r as int == order_key(self.spec_bits()),
    {
        let bits = self.bits;
        let mag = bits & MAGNITUDE_MASK;
        proof {
            assert(bits & MAGNITUDE_MASK <= 0x7fff_ffff_ffff_ffffu64) by (bit_vector);
        }
        if bits >> 63u64 == 1 {
            -(mag as i64)
        } else {
            mag as i64
        }
    }

    /// `self < other` as floats.
    pub fn less_than(&self, other: &Score) -> (r: bool)
        ensures
            r == float_lt(self.spec_bits(), other.spec_bits()),
            r == (order_key(self.spec_bits()) < order_key(other.spec_bits())),
    {
        proof {
            use_type_invariant(self);
            use_type_invariant(other);
            lemma_score_order_is_float_order(self.spec_bits(), other.spec_bits());
        }
        self.key() < other.key()
    }

    /// `self == other` as floats.
    pub fn float_equal(&self, other: &Score) -> (r: bool)
        ensures
            r == float_eq(self.spec_bits(), other.spec_bits()),
    {
        proof {
            use_type_invariant(self);
            use_type_invariant(other);
            lemma_score_order_is_float_order(self.spec_bits(), other.spec_bits());
        }
        self.key() == other.key()
    }
}

impl PartialEq for NotNaNf64 {
    fn eq(&self, other: &Score) -> (r: bool) {
        self.float_equal(other)
    }
}

impl vstd::std_specs::cmp::PartialEqSpecImpl for NotNaNf64 {
    open spec fn obeys_eq_spec() -> bool {
        true
    }

    open spec fn eq_spec(&self, other: &Score) -> bool {
        float_eq(self.spec_bits(), other.spec_bits())
    }
}

/// Bounds on the magnitude of a float with exponent field `e` and fraction `f`.
proof fn lemma_magnitude_bounds(e: int, f: int)
    requires
        0 <= e,
        0 <= f < pow2(52),
    ensures
        e == 0 ==> f < pow2(52),
        e >= 1 ==> pow2((51 + e) as nat) <= (f + pow2(52)) * pow2((e - 1) as nat) < pow2(
            (52 + e) as nat,
        ),
{
    if e >= 1 {
        let p = pow2((e - 1) as nat);
        lemma_pow2_pos((e - 1) as nat);
        lemma_pow2_adds(52, (e - 1) as nat);
        lemma_pow2_adds(53, (e - 1) as nat);
        lemma2_to64();
        lemma2_to64_rest();
        lemma_mul_inequality(pow2(52) as int, f + pow2(52), p as int);
        lemma_mul_strict_inequality(f + pow2(52), pow2(53) as int, p as int);
        assert((52 + (e - 1)) as nat == (51 + e) as nat);
        assert((53 + (e - 1)) as nat == (52 + e) as nat);
    }
}

/// The magnitude follows the order of (exponent, fraction), read as one number.
proof fn lemma_magnitude_monotone(a: u64, b: u64)
    requires
        exponent(a) * pow2(52) + fraction(a) < exponent(b) * pow2(52) + fraction(b),
        0 <= fraction(a) < pow2(52),
        0 <= fraction(b) < pow2(52),
    ensures
        magnitude(a) < magnitude(b),
{
    let (ea, fa, eb, fb) = (exponent(a), fraction(a), exponent(b), fraction(b));
    lemma_magnitude_bounds(ea, fa);
    lemma_magnitude_bounds(eb, fb);
    lemma2_to64();
        lemma2_to64_rest();
    if ea < eb {
        assert(ea * pow2(52) + fa < (ea + 1) * pow2(52)) by (nonlinear_arith)
            requires
                fa < pow2(52),
        ;
        if ea >= 1 {
            if ea + 1 < eb {
                lemma_pow2_strictly_increases((52 + ea) as nat, (51 + eb) as nat);
            }
        } else {
            if eb > 1 {
                lemma_pow2_strictly_increases(52, (51 + eb) as nat);
            }
        }
    } else if ea > eb {
        assert(eb * pow2(52) + fb < (eb + 1) * pow2(52)) by (nonlinear_arith)
            requires
                fb < pow2(52),
        ;
        assert((eb + 1) * pow2(52) <= ea * pow2(52)) by (nonlinear_arith)
            requires
                eb + 1 <= ea,
        ;
    } else {
        if ea >= 1 {
            lemma_pow2_pos((ea - 1) as nat);
            lemma_mul_strict_inequality(fa + pow2(52), fb + pow2(52), pow2((ea - 1) as nat) as int);
        }
    }
}

/// The magnitude bits split into exponent and fraction.
proof fn lemma_split_bits(a: u64)
    ensures
        (a & MAGNITUDE_MASK) as int == exponent(a) * pow2(52) + fraction(a),
        0 <= fraction(a) < pow2(52),
        0 <= exponent(a) <= 0x7ff,
        (a & MAGNITUDE_MASK) == 0 ==> exponent(a) == 0 && fraction(a) == 0,
{
    lemma2_to64();
        lemma2_to64_rest();
    assert(FRACTION_MASK == 0xf_ffff_ffff_ffffu64);
    assert(MAGNITUDE_MASK == 0x7fff_ffff_ffff_ffffu64);
    assert((a & 0x7fff_ffff_ffff_ffffu64) == ((a >> 52u64) & 0x7ffu64) * 0x10000000000000u64 + (a
        & 0xf_ffff_ffff_ffffu64)) by (bit_vector);
    assert((a & 0xf_ffff_ffff_ffffu64) < 0x10000000000000u64) by (bit_vector);
    assert(((a >> 52u64) & 0x7ffu64) <= 0x7ffu64) by (bit_vector);
    assert(((a >> 52u64) & 0x7ffu64) * 0x10000000000000u64 <= 0x7ff0000000000000u64) by (bit_vector)
        requires
            ((a >> 52u64) & 0x7ffu64) <= 0x7ffu64,
    ;
}

/// Sign and magnitude: `order_key` is the float order of non-NaN values.
proof fn lemma_order_key(a: u64, b: u64)
    requires
        !is_nan(a),
        !is_nan(b),
    ensures
        float_lt(a, b) <==> order_key(a) < order_key(b),
        float_eq(a, b) <==> order_key(a) == order_key(b),
{
    lemma_split_bits(a);
    lemma_split_bits(b);
    lemma2_to64();
        lemma2_to64_rest();
    let ma = (a & MAGNITUDE_MASK) as int;
    let mb = (b & MAGNITUDE_MASK) as int;
    if ma < mb {
        if !is_infinite(a) && !is_infinite(b) {
            lemma_magnitude_monotone(a, b);
        }
    } else if mb < ma {
        if !is_infinite(a) && !is_infinite(b) {
            lemma_magnitude_monotone(b, a);
        }
    }
    if !is_infinite(a) && exponent(a) != 0 {
        lemma_magnitude_bounds(exponent(a), fraction(a));
        lemma_pow2_pos((51 + exponent(a)) as nat);
    }
    if !is_infinite(b) && exponent(b) != 0 {
        lemma_magnitude_bounds(exponent(b), fraction(b));
        lemma_pow2_pos((51 + exponent(b)) as nat);
    }
    assert(a == b <==> (negative(a) == negative(b) && ma == mb)) by {
        assert(a == b <==> ((a >> 63u64) == (b >> 63u64) && (a & 0x7fff_ffff_ffff_ffffu64) == (b
            & 0x7fff_ffff_ffff_ffffu64))) by (bit_vector);
        assert((a >> 63u64) == 0 || (a >> 63u64) == 1) by (bit_vector);
        assert((b >> 63u64) == 0 || (b >> 63u64) == 1) by (bit_vector);
    }
    if exponent(a) == exponent(b) && fraction(a) == fraction(b) {
        assert(ma == mb);
    }
}

/// Scores are ordered as the floats they hold: for every two non-NaN values,
/// comparing their order keys (what `Score::less_than` and `==` do) gives
/// the same answer as comparing the real numbers they denote, and any two of
/// them are comparable.
pub proof fn lemma_score_order_is_float_order(a: u64, b: u64)
    requires
        !is_nan(a),
        !is_nan(b),
    ensures
        float_lt(a, b) <==> order_key(a) < order_key(b),
        float_eq(a, b) <==> order_key(a) == order_key(b),
        float_lt(a, b) || float_eq(a, b) || float_lt(b, a),
{
    lemma_order_key(a, b);
    lemma_order_key(b, a);
}

} // verus!
