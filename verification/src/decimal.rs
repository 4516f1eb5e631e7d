//! Exact decimal values: a 96-bit signed mantissa and a power-of-ten scale.

use vstd::prelude::*;

verus! {

/// Largest scale a decimal value can carry.
pub const MAX_SCALE: u32 = 28;

/// Largest magnitude of a mantissa: 2^96 - 1.
pub const MAX_MANTISSA: i128 = 0x0000_0000_FFFF_FFFF_FFFF_FFFF_FFFF_FFFF;

/// Ten to the power `n`.
pub open spec fn pow10(n: nat) -> int
    decreases n,
{
    if n == 0 {
        1
    } else {
        10 * pow10((n - 1) as nat)
    }
}

/// Every power of ten is positive.
pub proof fn lemma_pow10_positive(n: nat)
    ensures
        pow10(n) > 0,
    decreases n,
{
    if n > 0 {
        lemma_pow10_positive((n - 1) as nat);
    }
}

/// A mantissa times a power of ten has the sign of the mantissa.
pub proof fn lemma_scaled_sign(mantissa: int, n: nat)
    ensures
        (mantissa * pow10(n) > 0) == (mantissa > 0),
        (mantissa * pow10(n) == 0) == (mantissa == 0),
{
    let p = pow10(n);
    lemma_pow10_positive(n);
    assert(mantissa > 0 ==> mantissa * p > 0) by (nonlinear_arith)
        requires
            p > 0,
    ;
    assert(mantissa < 0 ==> mantissa * p < 0) by (nonlinear_arith)
        requires
            p > 0,
    ;
}

/// The number `mantissa / 10^scale`.
#[derive(Clone, Copy, Debug)]
pub struct DecimalValue {
    mantissa: i128,
    scale: u32,
}

impl DecimalValue {
    /// The mantissa and the scale are within the representable range.
    pub open spec fn wf(&self) -> bool {
        &&& self.spec_scale() <= MAX_SCALE
        &&& -MAX_MANTISSA <= self.spec_mantissa() <= MAX_MANTISSA
    }

    #[verifier::type_invariant]
    spec fn representable(&self) -> bool {
        self.wf()
    }

    pub closed spec fn spec_mantissa(&self) -> i128 {
        self.mantissa
    }

    pub closed spec fn spec_scale(&self) -> u32 {
        self.scale
    }

    /// The value in units of 10^-28: numerically equal values have equal units,
    /// whatever their scales.
    pub open spec fn units(&self) -> int {
        self.spec_mantissa() * pow10((MAX_SCALE - self.spec_scale()) as nat)
    }

    /// Builds `mantissa / 10^scale`, or nothing when it is not representable.
    pub fn new(mantissa: i128, scale: u32) -> (r: Option<DecimalValue>)
        ensures
            r is Some <==> (scale <= MAX_SCALE && -MAX_MANTISSA <= mantissa <= MAX_MANTISSA),
            r matches Some(d) ==> d.wf() && d.spec_mantissa() == mantissa && d.spec_scale()
                == scale && (d.units() > 0) == (mantissa > 0),
    {
        proof {
            if scale <= MAX_SCALE {
                lemma_scaled_sign(mantissa as int, (MAX_SCALE - scale) as nat);
            }
        }
        if scale > MAX_SCALE || mantissa > MAX_MANTISSA || mantissa < -MAX_MANTISSA {
            None
        } else {
            Some(DecimalValue { mantissa, scale })
        }
    }

    /// The whole number `n`.
    pub fn from_integer(n: i64) -> (r: DecimalValue)
        ensures
            r.wf(),
            r.spec_mantissa() == n,
            r.spec_scale() == 0,
            r.units() == n * pow10(28),
            (r.units() > 0) == (n > 0),
    {
        proof {
            lemma_scaled_sign(n as int, 28);
        }
        DecimalValue { mantissa: n as i128, scale: 0 }
    }

    pub fn mantissa(&self) -> (r: i128)
        ensures
            r == self.spec_mantissa(),
    {
        self.mantissa
    }

    pub fn scale(&self) -> (r: u32)
        ensures
            r == self.spec_scale(),
    {
        self.scale
    }

    /// Whether `self` is numerically less than `other`.
    pub fn lt(&self, other: &DecimalValue) -> (r: bool)
        ensures
            r == (self.units() < other.units()),
    {
        proof {
            use_type_invariant(self);
            use_type_invariant(other);
        }
        let o: i8 = compare_decimals(self, other);
        o < 0
    }

    /// Whether `self` is numerically at most `other`.
    pub fn le(&self, other: &DecimalValue) -> (r: bool)
        ensures
            r == (self.units() <= other.units()),
    {
        proof {
            use_type_invariant(self);
            use_type_invariant(other);
        }
        let o: i8 = compare_decimals(self, other);
        o <= 0
    }

    /// Whether the two values are numerically equal, whatever their scales.
    pub fn same_value(&self, other: &DecimalValue) -> (r: bool)
        ensures
            r == (self.units() == other.units()),
    {
        proof {
            use_type_invariant(self);
            use_type_invariant(other);
        }
        let o: i8 = compare_decimals(self, other);
        o == 0
    }

    /// Whether the value is greater than zero.
    pub fn is_positive(&self) -> (r: bool)
        ensures
            r == (self.units() > 0),
    {
        proof {
            use_type_invariant(self);
            lemma_scaled_sign(self.mantissa as int, (MAX_SCALE - self.scale) as nat);
        }
        self.mantissa > 0
    }
}

/// Calls `rust_decimal::Decimal::cmp` on the two values, each rebuilt with
/// `Decimal::from_i128_with_scale`. Trusted: the result is -1, 0 or 1 as the
/// first number is less than, equal to or greater than the second, the
/// numbers compared by value and not by representation. Both arguments must be
/// representable, since the constructor panics otherwise.
#[verifier::external_body]
fn compare_decimals(a: &DecimalValue, b: &DecimalValue) -> (r: i8)
    requires
        a.wf(),
        b.wf(),
    ensures
        -1 <= r <= 1,
        r == -1 <==> a.units() < b.units(),
        r == 0 <==> a.units() == b.units(),
        r == 1 <==> a.units() > b.units(),
{
    let x = rust_decimal::Decimal::from_i128_with_scale(a.mantissa, a.scale);
    let y = rust_decimal::Decimal::from_i128_with_scale(b.mantissa, b.scale);
    match x.cmp(&y) {
        std::cmp::Ordering::Less => -1,
        std::cmp::Ordering::Equal => 0,
        std::cmp::Ordering::Greater => 1,
    }
}

} // verus!
