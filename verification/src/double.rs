//! Double-precision numbers, held by their bit patterns.
//!
//! The detector's measurements are IEEE 754 doubles. Its rules only compare them, take absolute
//! values and pick the larger of two, and all of that can be read off the bit pattern. `value`
//! is the number that a pattern denotes, as an exact integer multiple of the smallest positive
//! double, so that comparing two doubles is comparing two integers.

use vstd::prelude::*;
use vstd::arithmetic::power2::{
    lemma_pow2_pos, lemma_pow2_strictly_increases, lemma_pow2_unfold, pow2,
};

verus! {

/// The sign bit.
pub const SIGN: u64 = 0x8000_0000_0000_0000;

/// The magnitude of an infinity: all exponent bits set, no fraction. Above it lie the NaNs.
pub const INFINITE: u64 = 0x7ff0_0000_0000_0000;

/// A double-precision number, by its bit pattern.
#[derive(Clone, Copy, Debug, PartialEq, Eq, Structural)]
pub struct Double {
    pub bits: u64,
}

/// What a magnitude (a pattern without its sign) denotes, in units of the smallest positive
/// double. An infinity comes out above every finite number.
pub open spec fn scaled(magnitude: nat) -> nat {
    let exponent = magnitude / 0x10_0000_0000_0000;
    let fraction = magnitude % 0x10_0000_0000_0000;
    if exponent == 0 {
        fraction
    } else {
        (0x10_0000_0000_0000 + fraction) * pow2((exponent - 1) as nat)
    }
}

impl Double {
    /// The pattern without its sign.
    pub open spec fn magnitude(self) -> nat {
        if self.bits >= SIGN {
            (self.bits - SIGN) as nat
        } else {
            self.bits as nat
        }
    }

    pub open spec fn nan(self) -> bool {
        self.magnitude() > INFINITE
    }

    /// The number denoted, in units of the smallest positive double. Meant for patterns that
    /// are not a NaN.
    pub open spec fn value(self) -> int {
        if self.bits >= SIGN {
            -(scaled(self.magnitude()) as int)
        } else {
            scaled(self.magnitude()) as int
        }
    }

    /// The comparison `>` of doubles: false as soon as a NaN takes part.
    pub open spec fn above(self, other: Double) -> bool {
        !self.nan() && !other.nan() && self.value() > other.value()
    }

    /// The comparison `>=` of doubles.
    pub open spec fn at_least(self, other: Double) -> bool {
        !self.nan() && !other.nan() && self.value() >= other.value()
    }

    /// The number without its sign.
    pub open spec fn absolute(self) -> Double {
        Double { bits: self.magnitude() as u64 }
    }

    /// The larger of two numbers. A NaN gives way to the other operand.
    pub open spec fn larger(self, other: Double) -> Double {
        if self.nan() || other.above(self) {
            other
        } else {
            self
        }
    }

    /// An integer that orders the patterns as the numbers they denote.
    pub open spec fn order_key(self) -> int {
        if self.bits >= SIGN {
            -(self.magnitude() as int)
        } else {
            self.magnitude() as int
        }
    }
}

proof fn lemma_scaled_increases(m: nat, n: nat)
    requires
        m < n,
    ensures
        scaled(m) < scaled(n),
{
    let w: nat = 0x10_0000_0000_0000;
    let (e1, f1) = (m / w, m % w);
    let (e2, f2) = (n / w, n % w);
    assert(m == e1 * w + f1 && f1 < w && n == e2 * w + f2 && f2 < w) by (nonlinear_arith)
        requires
            w == 0x10_0000_0000_0000,
            e1 == m / w,
            f1 == m % w,
            e2 == n / w,
            f2 == n % w,
    ;
    if e1 == e2 {
        if e1 > 0 {
            lemma_pow2_pos((e1 - 1) as nat);
            let p = pow2((e1 - 1) as nat);
            assert((w + f1) * p < (w + f2) * p) by (nonlinear_arith)
                requires
                    f1 < f2,
                    p > 0,
            ;
        }
    } else {
        assert(e1 < e2) by (nonlinear_arith)
            requires
                e1 * w + f1 < e2 * w + f2,
                f2 < w,
                e1 != e2,
        ;
        let p2 = pow2((e2 - 1) as nat);
        lemma_pow2_pos((e2 - 1) as nat);
        assert(w * p2 <= (w + f2) * p2) by (nonlinear_arith)
            requires
                p2 > 0,
                f2 >= 0,
        ;
        if e1 == 0 {
            assert(w <= w * p2) by (nonlinear_arith)
                requires
                    p2 > 0,
            ;
        } else {
            let p1 = pow2((e1 - 1) as nat);
            lemma_pow2_pos((e1 - 1) as nat);
            lemma_pow2_unfold(e1);
            if e1 < e2 - 1 {
                lemma_pow2_strictly_increases(e1, (e2 - 1) as nat);
            }
            assert(2 * p1 <= p2);
            assert((w + f1) * p1 < w * p2) by (nonlinear_arith)
                requires
                    f1 < w,
                    p1 > 0,
                    2 * p1 <= p2,
            ;
        }
    }
}

/// The order keys of two patterns compare as the numbers they denote.
pub proof fn lemma_order_key(a: Double, b: Double)
    ensures
        a.order_key() < b.order_key() <==> a.value() < b.value(),
        a.order_key() == b.order_key() <==> a.value() == b.value(),
{
    let (m, n) = (a.magnitude(), b.magnitude());
    if m < n {
        lemma_scaled_increases(m, n);
    }
    if n < m {
        lemma_scaled_increases(n, m);
    }
    if 0 < m {
        lemma_scaled_increases(0, m);
    }
    if 0 < n {
        lemma_scaled_increases(0, n);
    }
}

impl Double {
    pub fn is_nan(self) -> (r: bool)
        ensures
            r == self.nan(),
    {
        let magnitude = if self.bits >= SIGN { self.bits - SIGN } else { self.bits };
        magnitude > INFINITE
    }

    /// The integer that stands for the pattern when numbers are sorted.
    pub fn key(self) -> (r: i64)
        ensures
            r == self.order_key(),
    {
        if self.bits >= SIGN {
            -((self.bits - SIGN) as i64)
        } else {
            self.bits as i64
        }
    }

    /// `self > other`, as doubles compare.
    pub fn gt(self, other: Double) -> (r: bool)
        ensures
            r == self.above(other),
    {
        proof {
            lemma_order_key(other, self);
        }
        !self.is_nan() && !other.is_nan() && self.key() > other.key()
    }

    /// `self >= other`, as doubles compare.
    pub fn ge(self, other: Double) -> (r: bool)
        ensures
            r == self.at_least(other),
    {
        proof {
            lemma_order_key(other, self);
        }
        !self.is_nan() && !other.is_nan() && self.key() >= other.key()
    }

    /// The number without its sign.
    pub fn abs(self) -> (r: Double)
        ensures
            r == self.absolute(),
            r.nan() == self.nan(),
            r.value() == if self.value() < 0 {
                -self.value()
            } else {
                self.value()
            },
    {
        Double { bits: if self.bits >= SIGN { self.bits - SIGN } else { self.bits } }
    }

    /// The larger of two numbers. A NaN gives way to the other operand.
    pub fn max(self, other: Double) -> (r: Double)
        ensures
            r == self.larger(other),
    {
        if self.is_nan() || other.gt(self) {
            other
        } else {
            self
        }
    }
}

/// A copy of some numbers.
pub fn copy_doubles(z: &Vec<Double>) -> (r: Vec<Double>)
    ensures
        r@ == z@,
{
    let mut r: Vec<Double> = Vec::new();
    for f in 0..z.len()
        invariant
            r@ == z@.take(f as int),
            f <= z@.len(),
    {
        assert(z@.take(f + 1) =~= z@.take(f as int).push(z@[f as int]));
        r.push(z[f]);
    }
    assert(z@.take(z@.len() as int) =~= z@);
    r
}

/// Doubles without a sign compare as their bit patterns, with a sign the other way round, and
/// one without a sign lies above one with a sign unless both are zero. A NaN, a pattern beyond an
/// infinity, compares with nothing.
pub proof fn law_patterns_compare(a: Double, b: Double)
    ensures
        a.bits <= 0x7ff0_0000_0000_0000 && b.bits <= 0x7ff0_0000_0000_0000 ==> (a.above(b)
            <==> a.bits > b.bits),
        0x8000_0000_0000_0000 <= a.bits <= 0xfff0_0000_0000_0000 && 0x8000_0000_0000_0000 <= b.bits
            <= 0xfff0_0000_0000_0000 ==> (a.above(b) <==> a.bits < b.bits),
        a.bits <= 0x7ff0_0000_0000_0000 && 0x8000_0000_0000_0000 <= b.bits
            <= 0xfff0_0000_0000_0000 ==> (a.above(b) <==> !(a.bits == 0 && b.bits
            == 0x8000_0000_0000_0000)) && !b.above(a),
        0x7ff0_0000_0000_0000 < a.bits < 0x8000_0000_0000_0000 || a.bits > 0xfff0_0000_0000_0000
            ==> !a.above(b) && !b.above(a) && !a.at_least(b) && !b.at_least(a),
{
    lemma_order_key(a, b);
    lemma_order_key(b, a);
}

/// Of two doubles neither of which is a NaN, exactly one of these holds: the first is above the
/// second, the second above the first, or each is at least the other. What is above is at least.
pub proof fn law_order_is_total(a: Double, b: Double, c: Double)
    requires
        !a.nan(),
        !b.nan(),
        !c.nan(),
    ensures
        a.at_least(b) <==> !b.above(a),
        a.above(b) ==> !b.above(a),
        a.above(b) && b.above(c) ==> a.above(c),
        a.at_least(b) && b.at_least(c) ==> a.at_least(c),
        !a.above(a),
{
}

/// The absolute value clears the sign and nothing else: it is never below zero, it is the same for
/// a number and its opposite, and a number without a sign is its own.
pub proof fn law_absolute_value(a: Double)
    ensures
        a.bits < 0x8000_0000_0000_0000 ==> a.absolute() == a,
        a.bits >= 0x8000_0000_0000_0000 ==> a.absolute().bits == a.bits - 0x8000_0000_0000_0000,
        a.absolute().absolute() == a.absolute(),
        a.absolute().nan() == a.nan(),
        !(Double { bits: 0 }).above(a.absolute()),
{
    lemma_order_key(Double { bits: 0 }, a.absolute());
}

/// The larger of two numbers is one of them and below neither. A NaN is passed over.
pub proof fn law_larger_of_two(a: Double, b: Double)
    ensures
        a.larger(b) == a || a.larger(b) == b,
        !a.nan() && !b.nan() ==> a.larger(b).at_least(a) && a.larger(b).at_least(b),
        a.nan() ==> a.larger(b) == b,
        b.nan() && !a.nan() ==> a.larger(b) == a,
{
}

/// The numbers are those of IEEE 754: from one pattern to the next the number grows by one unit
/// below the first normal number, and one more in the exponent doubles a normal number.
pub proof fn law_values_of_patterns(bits: u64)
    requires
        bits < 0x7fe0_0000_0000_0000,
    ensures
        bits < 0x10_0000_0000_0000 ==> (Double { bits }).value() == bits,
        bits >= 0x10_0000_0000_0000 ==> (Double { bits: (bits + 0x10_0000_0000_0000) as u64 }).value()
            == 2 * (Double { bits }).value(),
        bits > 0 ==> (Double { bits: (bits + 0x8000_0000_0000_0000) as u64 }).value() == -(Double {
            bits,
        }).value(),
{
    let w: int = 0x10_0000_0000_0000;
    let m = bits as int;
    let (e, f) = (m / w, m % w);
    assert((m + w) / w == e + 1 && (m + w) % w == f) by (nonlinear_arith)
        requires
            w == 0x10_0000_0000_0000,
            e == m / w,
            f == m % w,
    ;
    if e >= 1 {
        lemma_pow2_unfold(e as nat);
        let p = pow2((e - 1) as nat) as int;
        assert((w + f) * (2 * p) == 2 * ((w + f) * p)) by (nonlinear_arith);
    }
}

} // verus!
