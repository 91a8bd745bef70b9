//! Measurements: runtimes, qualities, scores and settings that are real numbers.
//!
//! A [`Measure`] is a number in the 64-bit binary interchange format of IEEE 754,
//! held as its encoding. The library compares measures and carries them around;
//! sums, products and quotients are formed by its callers.

use vstd::arithmetic::power2::{lemma_pow2_adds, lemma_pow2_pos, lemma_pow2_unfold, pow2};
use vstd::prelude::*;

verus! {

/// The encodings with the sign bit set start here.
pub const SIGN: u64 = 0x8000_0000_0000_0000;

/// The encoding of positive infinity; greater magnitudes encode no number.
pub const INFINITE: u64 = 0x7ff0_0000_0000_0000;

/// The weight of the exponent field in an encoding.
pub const EXPONENT: u64 = 0x0010_0000_0000_0000;

/// The numbers below this bound are counts that a measure holds exactly.
pub const COUNT_LIMIT: u64 = 0x0020_0000_0000_0000;

/// A real number, an infinity or "not a number", by its encoding.
#[derive(Clone, Copy, Debug, PartialEq, Eq, Structural)]
pub struct Measure {
    pub bits: u64,
}

/// How many times 2^-1074 the magnitude of an encoding without sign is.
pub open spec fn units_of(magnitude: int) -> int {
    let exponent = magnitude / (EXPONENT as int);
    let fraction = magnitude % (EXPONENT as int);
    if exponent == 0 {
        fraction
    } else {
        (EXPONENT + fraction) * pow2((exponent - 1) as nat)
    }
}

impl Measure {
    /// The encoding without its sign.
    pub open spec fn magnitude(self) -> int {
        if self.bits >= SIGN {
            self.bits - SIGN
        } else {
            self.bits as int
        }
    }

    /// Whether the encoding stands for no number.
    pub open spec fn nan(self) -> bool {
        self.magnitude() > INFINITE
    }

    /// Whether the measure is a number and not infinite.
    pub open spec fn finite(self) -> bool {
        self.magnitude() < INFINITE
    }

    /// The signed magnitude. Numbers compare as their signed magnitudes do.
    pub open spec fn rank(self) -> int {
        if self.bits >= SIGN {
            -self.magnitude()
        } else {
            self.magnitude()
        }
    }

    /// The place of the encoding in the total order of all encodings: as by
    /// `rank`, with negative zero before zero and encodings of no number at
    /// either end.
    pub open spec fn total_rank(self) -> int {
        if self.bits >= SIGN {
            -self.magnitude() - 1
        } else {
            self.magnitude()
        }
    }

    /// `self < other`; false if either is no number.
    pub open spec fn below(self, other: Measure) -> bool {
        !self.nan() && !other.nan() && self.rank() < other.rank()
    }

    /// `self <= other`; false if either is no number.
    pub open spec fn at_most(self, other: Measure) -> bool {
        !self.nan() && !other.nan() && self.rank() <= other.rank()
    }

    /// The number that a finite measure stands for, as a multiple of 2^-1074.
    pub open spec fn units(self) -> int {
        if self.bits >= SIGN {
            -units_of(self.magnitude())
        } else {
            units_of(self.magnitude())
        }
    }

    /// Positive infinity.
    pub fn infinity() -> (m: Measure)
        ensures
            m.bits == INFINITE,
    {
        Measure { bits: INFINITE }
    }

    /// Zero.
    pub fn zero() -> (m: Measure)
        ensures
            m.bits == 0,
    {
        Measure { bits: 0 }
    }

    fn size(self) -> (r: u64)
        ensures
            r == self.magnitude(),
    {
        if self.bits >= SIGN {
            self.bits - SIGN
        } else {
            self.bits
        }
    }

    /// Whether the measure is a number and not infinite.
    pub fn is_finite(self) -> (r: bool)
        ensures
            r == self.finite(),
    {
        self.size() < INFINITE
    }

    /// Whether the encoding stands for no number.
    pub fn is_nan(self) -> (r: bool)
        ensures
            r == self.nan(),
    {
        self.size() > INFINITE
    }

    /// `self < other`.
    pub fn lt(self, other: Measure) -> (r: bool)
        ensures
            r == self.below(other),
    {
        if self.is_nan() || other.is_nan() {
            return false;
        }
        let a: u64 = self.size();
        let b: u64 = other.size();
        if self.bits >= SIGN {
            if other.bits >= SIGN {
                b < a
            } else {
                a > 0 || b > 0
            }
        } else if other.bits >= SIGN {
            false
        } else {
            a < b
        }
    }

    /// `self <= other`.
    pub fn le(self, other: Measure) -> (r: bool)
        ensures
            r == self.at_most(other),
    {
        !self.is_nan() && !other.is_nan() && !other.lt(self)
    }

    /// Whether `self` comes before `other` in the total order of encodings.
    pub fn precedes(self, other: Measure) -> (r: bool)
        ensures
            r == (self.total_rank() < other.total_rank()),
    {
        if self.bits >= SIGN {
            if other.bits >= SIGN {
                other.bits < self.bits
            } else {
                true
            }
        } else if other.bits >= SIGN {
            false
        } else {
            self.bits < other.bits
        }
    }

    /// The measure of a count.
    pub open spec fn counted(n: nat) -> Measure {
        choose|m: Measure| m.bits < INFINITE && m.units() == n * pow2(1074)
    }

    /// The measure of a count.
    pub fn from_count(n: u64) -> (m: Measure)
        requires
            n < COUNT_LIMIT,
        ensures
            m == Measure::counted(n as nat),
            m.finite(),
            m.bits < SIGN,
            m.units() == n * pow2(1074),
    {
        if n == 0 {
            assert(0int * pow2(1074) == 0);
            proof {
                Measure::lemma_counted(n as nat, Measure { bits: 0 });
            }
            return Measure { bits: 0 };
        }
        let mut m: u64 = n;
        let mut e: u64 = 52;
        proof {
            lemma_two_to_zero();
            assert((52 - e) as nat == 0);
            assert(n * pow2((52 - e) as nat) == n) by (nonlinear_arith)
                requires
                    pow2((52 - e) as nat) == 1,
            ;
        }
        while m < EXPONENT
            invariant
                0 < n < COUNT_LIMIT,
                0 < m < COUNT_LIMIT,
                e <= 52,
                m == n * pow2((52 - e) as nat),
                n >= 1,
            decreases e,
        {
            proof {
                lemma_small_power((52 - e) as nat, m as int, n as int);
                lemma_pow2_unfold((52 - e + 1) as nat);
                assert(n * pow2((52 - e + 1) as nat) == m * 2) by (nonlinear_arith)
                    requires
                        pow2((52 - e + 1) as nat) == 2 * pow2((52 - e) as nat),
                        m == n * pow2((52 - e) as nat),
                ;
            }
            m = m * 2;
            e = e - 1;
        }
        let bits: u64 = (e + 1023) * EXPONENT + (m - EXPONENT);
        let r = Measure { bits };
        proof {
            assert(bits as int / (EXPONENT as int) == e + 1023 && bits as int % (EXPONENT as int) == m
                - EXPONENT) by (nonlinear_arith)
                requires
                    bits == (e + 1023) * EXPONENT + (m - EXPONENT),
                    EXPONENT <= m < 2 * EXPONENT,
                    EXPONENT == 0x0010_0000_0000_0000,
            ;
            lemma_pow2_adds((52 - e) as nat, (e + 1022) as nat);
            assert(m * pow2((e + 1022) as nat) == n * pow2(1074)) by (nonlinear_arith)
                requires
                    m == n * pow2((52 - e) as nat),
                    pow2((52 - e) as nat) * pow2((e + 1022) as nat) == pow2(1074),
            ;
            assert(r.units() == n * pow2(1074));
            Measure::lemma_counted(n as nat, r);
        }
        r
    }

    /// Different magnitudes of finite measures stand for different numbers, in
    /// the same order.
    pub proof fn lemma_units_increase(a: int, b: int)
        requires
            0 <= a < b,
        ensures
            units_of(a) < units_of(b),
    {
        let w = EXPONENT as int;
        let (ea, fa) = (a / w, a % w);
        let (eb, fb) = (b / w, b % w);
        assert(a == ea * w + fa && b == eb * w + fb) by (nonlinear_arith)
            requires
                ea == a / w,
                fa == a % w,
                eb == b / w,
                fb == b % w,
                w > 0,
        ;
        assert(ea <= eb) by (nonlinear_arith)
            requires
                a == ea * w + fa,
                b == eb * w + fb,
                a < b,
                0 <= fa < w,
                0 <= fb < w,
        ;
        if ea == eb {
            assert(fa < fb);
            if ea > 0 {
                lemma_pow2_pos((ea - 1) as nat);
                assert((w + fa) * pow2((ea - 1) as nat) < (w + fb) * pow2((ea - 1) as nat))
                    by (nonlinear_arith)
                    requires
                        fa < fb,
                        pow2((ea - 1) as nat) > 0,
                ;
            }
        } else if ea == 0 {
            lemma_pow2_pos((eb - 1) as nat);
            assert((w + fb) * pow2((eb - 1) as nat) >= w + fb) by (nonlinear_arith)
                requires
                    pow2((eb - 1) as nat) > 0,
                    w + fb > 0,
            ;
        } else {
            let d = (eb - 1 - ea) as nat;
            lemma_pow2_pos((ea - 1) as nat);
            lemma_pow2_pos(d);
            lemma_pow2_unfold(ea as nat);
            lemma_pow2_adds(ea as nat, d);
            let p = pow2((ea - 1) as nat) as int;
            let q = pow2(d) as int;
            assert((w + fa) * p < (w + fb) * ((2 * p) * q)) by (nonlinear_arith)
                requires
                    p > 0,
                    q > 0,
                    0 <= fa < w,
                    0 <= fb,
            {
                assert((w + fa) * p < (2 * w) * p) by (nonlinear_arith)
                    requires
                        p > 0,
                        fa < w,
                ;
                assert((2 * p) * q >= 2 * p) by (nonlinear_arith)
                    requires
                        p > 0,
                        q > 0,
                ;
                assert((w + fb) * ((2 * p) * q) >= w * (2 * p)) by (nonlinear_arith)
                    requires
                        (2 * p) * q >= 2 * p,
                        p > 0,
                        w > 0,
                        fb >= 0,
                ;
            }
        }
    }

    /// Finite measures compare as the numbers that they stand for.
    pub proof fn lemma_comparison_is_numeric(self, other: Measure)
        requires
            self.finite(),
            other.finite(),
        ensures
            self.below(other) <==> self.units() < other.units(),
            self.at_most(other) <==> self.units() <= other.units(),
    {
        let (a, b) = (self.magnitude(), other.magnitude());
        if 0 < a {
            Measure::lemma_units_increase(0, a);
        }
        if 0 < b {
            Measure::lemma_units_increase(0, b);
        }
        if a < b {
            Measure::lemma_units_increase(a, b);
        } else if b < a {
            Measure::lemma_units_increase(b, a);
        }
        assert(units_of(0) == 0);
    }

    proof fn lemma_counted(n: nat, m: Measure)
        requires
            m.bits < INFINITE,
            m.units() == n * pow2(1074),
        ensures
            m == Measure::counted(n),
    {
        let c = Measure::counted(n);
        assert(c.bits < INFINITE && c.units() == n * pow2(1074));
        if c.bits < m.bits {
            Measure::lemma_units_increase(c.magnitude(), m.magnitude());
        } else if m.bits < c.bits {
            Measure::lemma_units_increase(m.magnitude(), c.magnitude());
        }
    }

    /// Counts compare as their measures do.
    pub proof fn lemma_counts_compare(a: Measure, b: Measure, m: nat, n: nat)
        requires
            a.finite(),
            b.finite(),
            a.units() == m * pow2(1074),
            b.units() == n * pow2(1074),
        ensures
            a.below(b) <==> m < n,
    {
        a.lemma_comparison_is_numeric(b);
        lemma_pow2_pos(1074);
        assert((m * pow2(1074) < n * pow2(1074)) <==> m < n) by (nonlinear_arith)
            requires
                pow2(1074) > 0,
        ;
    }
}

proof fn lemma_two_to_zero()
    ensures
        pow2(0) == 1,
{
    vstd::arithmetic::power2::lemma2_to64();
}

proof fn lemma_small_power(k: nat, m: int, n: int)
    requires
        m == n * pow2(k),
        n >= 1,
        m < EXPONENT,
        k <= 52,
    ensures
        k < 52,
{
    if k == 52 {
        vstd::arithmetic::power2::lemma2_to64_rest();
        assert(pow2(52) == 0x0010_0000_0000_0000);
        assert(n * pow2(52) >= pow2(52)) by (nonlinear_arith)
            requires
                n >= 1,
                pow2(52) > 0,
        ;
    }
}

impl Measure {
    /// Infinities lie beyond all finite measures, and what is no number compares
    /// with nothing.
    pub proof fn lemma_extremes_compare(self, other: Measure)
        ensures
            self.nan() || other.nan() ==> !self.below(other) && !self.at_most(other),
            self.finite() ==> self.below(Measure { bits: INFINITE }),
            self.finite() ==> (Measure { bits: 0xfff0_0000_0000_0000 }).below(self),
            !(Measure { bits: INFINITE }).finite() && !(Measure { bits: INFINITE }).nan(),
            !self.nan() && !other.nan() ==> (self.below(other) <==> !other.at_most(self)),
            self.finite() ==> !self.nan(),
    {
    }

    /// The total order of encodings goes on where comparison leaves off: what is
    /// less comes first, different encodings are never level, negative zero comes
    /// before zero, and what is no number comes at the end of its sign.
    pub proof fn lemma_total_order_extends_comparison(self, other: Measure)
        ensures
            self.below(other) ==> self.total_rank() < other.total_rank(),
            self.total_rank() == other.total_rank() <==> self == other,
            (Measure { bits: 0x8000_0000_0000_0000 }).total_rank() < (Measure { bits: 0 }).total_rank(),
            self.nan() && self.bits < SIGN && !other.nan() ==> other.total_rank() < self.total_rank(),
            self.nan() && self.bits >= SIGN && !other.nan() ==> self.total_rank() < other.total_rank(),
    {
    }

    /// The measure of a count is that count.
    pub proof fn lemma_measures_of_counts(m: nat, n: nat)
        requires
            m < COUNT_LIMIT,
            n < COUNT_LIMIT,
            Measure::counted(m).bits < INFINITE && Measure::counted(m).units() == m * pow2(1074),
            Measure::counted(n).bits < INFINITE && Measure::counted(n).units() == n * pow2(1074),
        ensures
            Measure::counted(m).below(Measure::counted(n)) <==> m < n,
            Measure::counted(m) == Measure::counted(n) <==> m == n,
    {
        let (a, b) = (Measure::counted(m), Measure::counted(n));
        Measure::lemma_counts_compare(a, b, m, n);
        Measure::lemma_counts_compare(b, a, n, m);
    }
}

} // verus!
