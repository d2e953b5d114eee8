//! How far two buffers lie apart, and how far they may.
//!
//! Both are double-precision numbers. This crate holds them by their IEEE-754 bit patterns
//! and never computes with them: among non-negative numbers the order of the patterns is
//! the order of the numbers.
use vstd::arithmetic::div_mod::{
    lemma_div_is_ordered, lemma_div_multiples_vanish, lemma_multiply_divide_lt,
};
use vstd::arithmetic::power2::{
    lemma2_to64, lemma2_to64_rest, lemma_pow2_adds, lemma_pow2_pos, lemma_pow2_strictly_increases,
    lemma_pow2_unfold, pow2,
};
use vstd::prelude::*;

verus! {

/// The bit pattern of positive infinity in double precision.
pub const INFINITY_BITS: u64 = 0x7FF0_0000_0000_0000;

/// The bit that holds the sign of a double-precision number.
pub const SIGN_BIT: u64 = 0x8000_0000_0000_0000;

/// The place of the highest bit that is set in `n`, counted from zero.
pub open spec fn exponent_of(n: nat) -> nat
    decreases n,
{
    if n <= 1 {
        0
    } else {
        1 + exponent_of(n / 2)
    }
}

/// The bit pattern of the double-precision number nearest to the whole number `n`, ties
/// going to the one with an even mantissa.
///
/// Up to 53 bits are kept as they are. Of more, the lowest `p - 52` are rounded away,
/// where `p` is the place of the highest bit; a mantissa that rounding fills up carries
/// into the exponent.
pub open spec fn double_of(n: nat) -> nat {
    if n == 0 {
        0
    } else {
        let p = exponent_of(n);
        if p <= 52 {
            ((1023 + p) * pow2(52) + n * pow2((52 - p) as nat) - pow2(52)) as nat
        } else {
            let unit = pow2((p - 52) as nat);
            let q = n / unit;
            let r = n % unit;
            let up: nat = if 2 * r > unit || (2 * r == unit && q % 2 == 1) {
                1
            } else {
                0
            };
            ((1023 + p) * pow2(52) + q - pow2(52) + up) as nat
        }
    }
}

/// A distance: a double-precision number that is zero, positive or infinite.
#[derive(PartialEq, Eq, Structural, Clone, Copy, Debug)]
pub struct Deviation {
    bits: u64,
}

impl Deviation {
    /// The bit pattern of the number.
    pub closed spec fn spec_bits(self) -> u64 {
        self.bits
    }

    /// The sign is clear and the pattern is no NaN.
    pub open spec fn wf(self) -> bool {
        self.spec_bits() <= INFINITY_BITS
    }

    /// No distance at all.
    pub closed spec fn zero_value() -> Self {
        Deviation { bits: 0 }
    }

    /// No distance at all has no bit set, and so every limit that admits a distance admits
    /// it.
    pub proof fn lemma_zero_has_no_bits()
        ensures
            Self::zero_value().spec_bits() == 0,
            Self::zero_value().wf(),
    {
    }

    /// Two distances with the same bit pattern are the same distance.
    pub proof fn lemma_same_bits(a: Self, b: Self)
        requires
            a.spec_bits() == b.spec_bits(),
        ensures
            a == b,
    {
    }

    /// The distance with no bit set is no distance at all.
    pub proof fn lemma_zero_is_zero(d: Self)
        requires
            d.spec_bits() == 0,
        ensures
            d == Self::zero_value(),
    {
    }

    /// No distance at all.
    pub fn zero() -> (d: Self)
        ensures
            d == Self::zero_value(),
            d.wf(),
            d.spec_bits() == 0,
    {
        Deviation { bits: 0 }
    }

    /// The distance with the given bit pattern, if the pattern is one of a distance.
    pub fn from_bits(bits: u64) -> (d: Option<Self>)
        ensures
            d is Some <==> bits <= INFINITY_BITS,
            d matches Some(v) ==> v.wf() && v.spec_bits() == bits,
    {
        if bits <= INFINITY_BITS {
            Some(Deviation { bits })
        } else {
            None
        }
    }

    /// The whole number `n` as a distance: the double-precision number nearest to it.
    pub fn from_count(n: u64) -> (d: Self)
        ensures
            d.wf(),
            d.spec_bits() == double_of(n as nat),
    {
        if n == 0 {
            return Deviation { bits: 0 };
        }
        let mut t: u64 = n;
        let mut p: u64 = 0;
        let mut top: u64 = 1;
        proof {
            lemma2_to64();
            assert(top * t == n) by (nonlinear_arith)
                requires
                    top == 1,
                    t == n,
            ;
        }
        while t > 1
            invariant
                t >= 1,
                p <= 63,
                top == pow2(p as nat),
                exponent_of(n as nat) == p + exponent_of(t as nat),
                top * t <= n < top * (t + 1),
            decreases t,
        {
            proof {
                let h = t / 2;
                assert(2 * top * h <= top * t && top * (t + 1) <= 2 * top * (h + 1)
                    && 2 * top <= top * t) by (nonlinear_arith)
                    requires
                        h == t / 2,
                        t >= 2,
                        top >= 0,
                ;
                lemma_pow2_unfold((p + 1) as nat);
                lemma2_to64();
                if p + 1 > 64 {
                    lemma_pow2_strictly_increases(64, (p + 1) as nat);
                }
            }
            t = t / 2;
            p = p + 1;
            top = top * 2;
        }
        proof {
            lemma2_to64_rest();
            assert(top * 1 == top && top * 2 == 2 * top) by (nonlinear_arith);
            lemma_pow2_pos(p as nat);
        }
        let one: u64 = 0x10_0000_0000_0000;
        if p <= 52 {
            let scale = one / top;
            proof {
                let k = (52 - p) as nat;
                lemma_pow2_adds(p as nat, k);
                lemma_pow2_pos(k);
                lemma_div_multiples_vanish(pow2(k) as int, top as int);
                assert(scale == pow2(k));
                assert(top * scale == one);
                assert(one <= n * scale < 2 * one) by (nonlinear_arith)
                    requires
                        top * scale == one,
                        top <= n < 2 * top,
                        scale > 0,
                ;
            }
            let m = n * scale;
            Deviation { bits: (1023 + p) * one + m - one }
        } else {
            let unit = top / one;
            proof {
                let k = (p - 52) as nat;
                lemma_pow2_adds(52, k);
                lemma_pow2_pos(k);
                lemma_div_multiples_vanish(pow2(k) as int, one as int);
                assert(unit == pow2(k));
                assert(unit * one == top) by (nonlinear_arith)
                    requires
                        top == one * unit,
                ;
                lemma_div_multiples_vanish(one as int, unit as int);
                lemma_div_is_ordered(top as int, n as int, unit as int);
                assert(unit * (2 * one) == 2 * top) by (nonlinear_arith)
                    requires
                        unit * one == top,
                ;
                lemma_multiply_divide_lt(n as int, unit as int, 2 * one);
                if k > 11 {
                    lemma_pow2_strictly_increases(11, k);
                }
                if k < 11 {
                    lemma_pow2_strictly_increases(k, 11);
                }
            }
            let q = n / unit;
            let r = n % unit;
            let up: u64 = if 2 * r > unit || (2 * r == unit && q % 2 == 1) {
                1
            } else {
                0
            };
            Deviation { bits: (1023 + p) * one + q - one + up }
        }
    }

    /// The bit pattern of the number.
    pub fn bits(&self) -> (b: u64)
        ensures
            b == self.spec_bits(),
    {
        self.bits
    }

    /// The larger of this distance and the one with the bit pattern `bits`, if that is the
    /// pattern of a distance.
    pub fn join(self, bits: u64) -> (d: Option<Self>)
        requires
            self.wf(),
        ensures
            d is Some <==> bits <= INFINITY_BITS,
            d matches Some(v) ==> v.wf() && v.spec_bits() == if self.spec_bits() >= bits {
                self.spec_bits()
            } else {
                bits
            },
    {
        if bits > INFINITY_BITS {
            None
        } else if self.bits >= bits {
            Some(self)
        } else {
            Some(Deviation { bits })
        }
    }

    /// The larger of two distances.
    pub fn max(self, other: Self) -> (d: Self)
        ensures
            d == if self.spec_bits() >= other.spec_bits() {
                self
            } else {
                other
            },
    {
        if self.bits >= other.bits {
            self
        } else {
            other
        }
    }
}

/// The largest distance that a caller accepts: any double-precision number.
#[derive(PartialEq, Eq, Structural, Clone, Copy, Debug)]
pub struct Tolerance {
    pub bits: u64,
}

impl Tolerance {
    /// Whether `d <= self` as numbers: never for a NaN, for a negative bound only where both
    /// are zero, and by the bit patterns otherwise.
    pub open spec fn admits(self, d: Deviation) -> bool {
        if self.bits & !SIGN_BIT > INFINITY_BITS {
            false
        } else if self.bits & SIGN_BIT != 0 {
            self.bits == SIGN_BIT && d.spec_bits() == 0
        } else {
            d.spec_bits() <= self.bits
        }
    }

    /// Whether the bound accepts no distance at all: a NaN, or a number below zero.
    pub open spec fn admits_nothing(self) -> bool {
        self.bits & !SIGN_BIT > INFINITY_BITS || (self.bits & SIGN_BIT != 0 && self.bits
            != SIGN_BIT)
    }

    /// The bound with the given bit pattern.
    pub fn from_bits(bits: u64) -> (t: Self)
        ensures
            t.bits == bits,
    {
        Tolerance { bits }
    }

    /// Whether the distance `d` is within the bound.
    pub fn accepts(&self, d: Deviation) -> (ok: bool)
        ensures
            ok == self.admits(d),
            self.admits_nothing() ==> !ok,
    {
        if self.bits & !SIGN_BIT > INFINITY_BITS {
            false
        } else if self.bits & SIGN_BIT != 0 {
            self.bits == SIGN_BIT && d.bits() == 0
        } else {
            d.bits() <= self.bits
        }
    }
}

impl Default for Tolerance {
    /// No distance but zero is accepted.
    fn default() -> (t: Self)
        ensures
            t.bits == 0,
    {
        Tolerance { bits: 0 }
    }
}

/// A bound that is zero or more accepts every distance up to it, and a distance that lies
/// under an accepted one is accepted too.
pub proof fn lemma_admits_is_downward_closed(t: Tolerance, a: Deviation, b: Deviation)
    requires
        t.admits(b),
        a.spec_bits() <= b.spec_bits(),
    ensures
        t.admits(a),
{
}

} // verus!
