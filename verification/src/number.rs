//! Single-precision numbers held as their IEEE 754 bit patterns.
//!
//! The tracker only ever compares such numbers and hands them on, so a bit
//! pattern is all it needs. The comparisons below are those of IEEE 754: a NaN
//! compares to nothing, and the two zeros are equal.

use std::cmp::Ordering;
use vstd::prelude::*;

verus! {

/// A single-precision number, given by its IEEE 754 bit pattern.
#[derive(Clone, Copy, Debug)]
pub struct Single {
    /// Sign bit, eight exponent bits, twenty-three fraction bits.
    pub bits: u32,
}

/// The non-negative number with sign-less bit pattern `magnitude`, in units of
/// the smallest positive one. The formula also ranks infinity above every
/// finite number.
#[verifier::opaque]
pub open spec fn units(magnitude: int) -> int {
    let exponent = magnitude / 0x80_0000;
    let fraction = magnitude % 0x80_0000;
    if exponent == 0 {
        fraction
    } else {
        (0x80_0000 + fraction) * vstd::arithmetic::power2::pow2((exponent - 1) as nat)
    }
}

impl Single {
    /// The bit pattern without the sign bit.
    pub open spec fn magnitude(self) -> int {
        self.bits as int % 0x8000_0000
    }

    /// Whether the sign bit is set.
    pub open spec fn is_negative(self) -> bool {
        self.bits >= 0x8000_0000
    }

    /// Whether the pattern stands for no number: all exponent bits are set and
    /// the fraction is not zero.
    pub open spec fn is_nan(self) -> bool {
        self.magnitude() > 0x7f80_0000
    }

    /// The number, in units of the smallest positive one. It means nothing for
    /// a NaN.
    pub open spec fn value(self) -> int {
        if self.is_negative() {
            -units(self.magnitude())
        } else {
            units(self.magnitude())
        }
    }

    /// IEEE 754 `self < other`.
    pub open spec fn less_than(self, other: Single) -> bool {
        !self.is_nan() && !other.is_nan() && self.value() < other.value()
    }

    /// IEEE 754 `self <= other`.
    pub open spec fn at_most(self, other: Single) -> bool {
        !self.is_nan() && !other.is_nan() && self.value() <= other.value()
    }

    /// IEEE 754 `self == other`.
    pub open spec fn equals(self, other: Single) -> bool {
        !self.is_nan() && !other.is_nan() && self.value() == other.value()
    }

    /// The number with bit pattern `bits`.
    pub fn from_bits(bits: u32) -> (r: Single)
        ensures
            r.bits == bits,
    {
        Single { bits }
    }

    /// The bit pattern.
    pub fn to_bits(self) -> (r: u32)
        ensures
            r == self.bits,
    {
        self.bits
    }

    /// An integer that orders the numbers as their values do, or `None` for a
    /// NaN.
    fn order_key(&self) -> (r: Option<i64>)
        ensures
            r is None <==> self.is_nan(),
            r matches Some(k) ==> k == self.key(),
    {
        let magnitude: u32 = self.bits % 0x8000_0000;
        if magnitude > 0x7f80_0000 {
            None
        } else if self.bits >= 0x8000_0000 {
            Some(-(magnitude as i64))
        } else {
            Some(magnitude as i64)
        }
    }

    spec fn key(self) -> int {
        if self.is_negative() {
            -self.magnitude()
        } else {
            self.magnitude()
        }
    }
}

/// The bit pattern of the largest finite number.
pub const MAX_BITS: u32 = 0x7f7f_ffff;

proof fn lemma_units_step(m: int)
    requires
        0 <= m,
    ensures
        0 <= units(m) < units(m + 1),
{
    reveal(units);
    let e = m / 0x80_0000;
    let f = m % 0x80_0000;
    let e1 = (m + 1) / 0x80_0000;
    let f1 = (m + 1) % 0x80_0000;
    if f == 0x7f_ffff {
        assert(e1 == e + 1 && f1 == 0);
        if e == 0 {
            assert(vstd::arithmetic::power2::pow2(0) == 1) by {
                vstd::arithmetic::power2::lemma2_to64();
            }
        } else {
            vstd::arithmetic::power2::lemma_pow2_pos((e - 1) as nat);
            vstd::arithmetic::power2::lemma_pow2_unfold(e as nat);
            let p = vstd::arithmetic::power2::pow2((e - 1) as nat) as int;
            assert(vstd::arithmetic::power2::pow2(e as nat) == 2 * p);
            assert(0 <= (0x80_0000 + f) * p < 0x80_0000 * (2 * p)) by (nonlinear_arith)
                requires
                    f == 0x7f_ffff,
                    p > 0,
            ;
        }
    } else {
        assert(e1 == e && f1 == f + 1);
        if e != 0 {
            vstd::arithmetic::power2::lemma_pow2_pos((e - 1) as nat);
            let p = vstd::arithmetic::power2::pow2((e - 1) as nat) as int;
            assert(0 <= (0x80_0000 + f) * p < (0x80_0000 + f1) * p) by (nonlinear_arith)
                requires
                    0 <= f,
                    f1 == f + 1,
                    p > 0,
            ;
        }
    }
}

proof fn lemma_units_increase(m: int, n: int)
    requires
        0 <= m < n,
    ensures
        0 <= units(m) < units(n),
    decreases n - m,
{
    lemma_units_step(n - 1);
    if m < n - 1 {
        lemma_units_increase(m, n - 1);
    }
}

/// Every number lies within the range that bit patterns can express.
pub(crate) proof fn lemma_value_range(a: Single)
    ensures
        -units(0x8000_0000) <= a.value() <= units(0x8000_0000),
{
    lemma_units_increase(a.magnitude(), 0x8000_0000);
}

proof fn lemma_key_orders(a: Single, b: Single)
    ensures
        a.key() < b.key() <==> a.value() < b.value(),
        a.key() == b.key() <==> a.value() == b.value(),
{
    assert(units(0) == 0) by {
        reveal(units);
    }
    let (m, n) = (a.magnitude(), b.magnitude());
    if 0 < m {
        lemma_units_increase(0, m);
    }
    if 0 < n {
        lemma_units_increase(0, n);
    }
    if m < n {
        lemma_units_increase(m, n);
    }
    if n < m {
        lemma_units_increase(n, m);
    }
}

/// Where bit patterns stand in the order of the numbers: a pattern without sign stands
/// for itself, one with the sign bit for its negation, and a pattern above that of infinity
/// compares to nothing. In particular both zeros are equal.
pub proof fn comparisons_go_by_bit_patterns(a: Single, b: Single)
    ensures
        ({
            let ka = if a.bits < 0x8000_0000 {
                a.bits as int
            } else {
                0x8000_0000 - a.bits
            };
            let kb = if b.bits < 0x8000_0000 {
                b.bits as int
            } else {
                0x8000_0000 - b.bits
            };
            let comparable = -0x7f80_0000 <= ka <= 0x7f80_0000 && -0x7f80_0000 <= kb
                <= 0x7f80_0000;
            &&& a.less_than(b) <==> comparable && ka < kb
            &&& a.at_most(b) <==> comparable && ka <= kb
            &&& a.equals(b) <==> comparable && ka == kb
        }),
{
    lemma_key_orders(a, b);
}

/// The numbers are those of the format: the first two exponents step by one unit, and each
/// further exponent doubles the step.
pub proof fn values_double_with_the_exponent(m: int)
    requires
        0 <= m,
    ensures
        m < 0x100_0000 ==> units(m) == m,
        m >= 0x80_0000 ==> units(m + 0x80_0000) == 2 * units(m),
{
    reveal(units);
    let e = m / 0x80_0000;
    let f = m % 0x80_0000;
    assert(vstd::arithmetic::power2::pow2(0) == 1) by {
        vstd::arithmetic::power2::lemma2_to64();
    }
    if m < 0x80_0000 {
        assert(e == 0 && f == m);
    } else if m < 0x100_0000 {
        assert(e == 1 && f == m - 0x80_0000);
        assert((0x80_0000 + f) * 1 == m);
    }
    if m >= 0x80_0000 {
        let p = vstd::arithmetic::power2::pow2((e - 1) as nat) as int;
        vstd::arithmetic::power2::lemma_pow2_unfold(e as nat);
        assert((m + 0x80_0000) / 0x80_0000 == e + 1);
        assert((m + 0x80_0000) % 0x80_0000 == f);
        assert((0x80_0000 + f) * (2 * p) == 2 * ((0x80_0000 + f) * p)) by (nonlinear_arith);
    }
}

/// The operators are the comparisons of IEEE 754: of two numbers exactly one is less or both are
/// equal, and `None` says that one of them is a NaN.
pub proof fn operators_are_the_comparisons(a: Single, b: Single)
    ensures
        vstd::std_specs::cmp::PartialEqSpec::eq_spec(&a, &b) <==> a.equals(b),
        vstd::std_specs::cmp::PartialOrdSpec::partial_cmp_spec(&a, &b) == Some(Ordering::Less)
            <==> a.less_than(b),
        vstd::std_specs::cmp::PartialOrdSpec::partial_cmp_spec(&a, &b) == Some(Ordering::Equal)
            <==> a.equals(b),
        vstd::std_specs::cmp::PartialOrdSpec::partial_cmp_spec(&a, &b) == Some(Ordering::Greater)
            <==> b.less_than(a),
        vstd::std_specs::cmp::PartialOrdSpec::partial_cmp_spec(&a, &b) is None <==> !a.at_most(b)
            && !b.at_most(a),
{
}

impl PartialEq for Single {
    fn eq(&self, other: &Single) -> (r: bool) {
        proof {
            lemma_key_orders(*self, *other);
        }
        match (self.order_key(), other.order_key()) {
            (Some(a), Some(b)) => a == b,
            _ => false,
        }
    }
}

impl vstd::std_specs::cmp::PartialEqSpecImpl for Single {
    open spec fn obeys_eq_spec() -> bool {
        true
    }

    open spec fn eq_spec(&self, other: &Single) -> bool {
        self.equals(*other)
    }
}

impl PartialOrd for Single {
    fn partial_cmp(&self, other: &Single) -> (r: Option<Ordering>) {
        proof {
            lemma_key_orders(*self, *other);
        }
        match (self.order_key(), other.order_key()) {
            (Some(a), Some(b)) => if a < b {
                Some(Ordering::Less)
            } else if a == b {
                Some(Ordering::Equal)
            } else {
                Some(Ordering::Greater)
            },
            _ => None,
        }
    }
}

impl vstd::std_specs::cmp::PartialOrdSpecImpl for Single {
    open spec fn obeys_partial_cmp_spec() -> bool {
        true
    }

    open spec fn partial_cmp_spec(&self, other: &Single) -> Option<Ordering> {
        if self.less_than(*other) {
            Some(Ordering::Less)
        } else if self.equals(*other) {
            Some(Ordering::Equal)
        } else if other.less_than(*self) {
            Some(Ordering::Greater)
        } else {
            None
        }
    }
}

} // verus!
