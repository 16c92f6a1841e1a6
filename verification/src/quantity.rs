//! Measured quantities: latencies, bandwidths, traffic, shares.
//!
//! A quantity is a binary64 number, held by its bit pattern. The library reads
//! these numbers, compares them and hands them on; it never rounds one.
use vstd::arithmetic::power2::{
    lemma2_to64, lemma2_to64_rest, lemma_pow2_adds, lemma_pow2_pos, lemma_pow2_strictly_increases,
    lemma_pow2_unfold, pow2,
};
use vstd::prelude::*;

verus! {

/// The first pattern of a negative number.
pub const SIGN: u64 = 0x8000_0000_0000_0000;

/// The pattern of positive infinity.
pub const INFINITY: u64 = 0x7FF0_0000_0000_0000;

/// The number of patterns that share an exponent.
pub const STEP: u64 = 0x0010_0000_0000_0000;

/// The pattern of one.
pub const ONE: u64 = 0x3FF0_0000_0000_0000;

/// A binary64 number.
#[derive(Clone, Copy, Debug, PartialEq, Eq, Structural)]
pub struct Real {
    /// The bit pattern: sign, eleven bits of exponent, fifty-two of fraction.
    pub bits: u64,
}

impl Real {
    /// The number lies below zero, or is the negative zero.
    pub open spec fn negative(self) -> bool {
        self.bits >= SIGN
    }

    /// The pattern without its sign.
    pub open spec fn magnitude(self) -> int {
        if self.negative() {
            self.bits - SIGN
        } else {
            self.bits as int
        }
    }

    /// The pattern stands for no number.
    pub open spec fn nan(self) -> bool {
        self.magnitude() > INFINITY
    }

    /// The number is one of the two zeros.
    pub open spec fn zero(self) -> bool {
        self.magnitude() == 0
    }

    /// The number is neither infinite nor missing.
    pub open spec fn finite(self) -> bool {
        self.magnitude() < INFINITY
    }

    /// Where the number stands among the others: patterns of one sign lie in
    /// the order of the numbers they stand for.
    pub open spec fn rank(self) -> int {
        if self.negative() {
            -self.magnitude()
        } else {
            self.magnitude()
        }
    }

    /// The two numbers are equal: a missing number equals none, the two zeros
    /// equal each other.
    pub open spec fn equal_to(self, other: Real) -> bool {
        !self.nan() && !other.nan() && self.rank() == other.rank()
    }

    /// The number lies below the other; a missing number compares with none.
    pub open spec fn less_than(self, other: Real) -> bool {
        !self.nan() && !other.nan() && self.rank() < other.rank()
    }

    /// The exponent field.
    pub open spec fn exponent(self) -> int {
        self.magnitude() / (STEP as int)
    }

    /// The fraction field.
    pub open spec fn fraction(self) -> int {
        self.magnitude() % (STEP as int)
    }

    /// The size of a finite number, counted in units of the smallest positive
    /// one: the number is this count over the 1074th power of two.
    pub open spec fn units(self) -> nat {
        if self.exponent() == 0 {
            self.fraction() as nat
        } else {
            ((STEP + self.fraction()) as nat) * pow2((self.exponent() - 1) as nat)
        }
    }

    /// The number with its sign turned.
    pub open spec fn turned(self) -> Real {
        if self.negative() {
            Real { bits: (self.bits - SIGN) as u64 }
        } else {
            Real { bits: (self.bits + SIGN) as u64 }
        }
    }

    /// Turns the sign of the number.
    pub fn negate(&self) -> (r: Real)
        ensures
            r == self.turned(),
    {
        if self.bits >= SIGN {
            Real { bits: self.bits - SIGN }
        } else {
            Real { bits: self.bits + SIGN }
        }
    }

    /// Whether the pattern stands for no number.
    pub fn is_nan(&self) -> (r: bool)
        ensures
            r == self.nan(),
    {
        let m: u64 = if self.bits >= SIGN {
            self.bits - SIGN
        } else {
            self.bits
        };
        m > INFINITY
    }

    /// Whether the number is a zero.
    pub fn is_zero(&self) -> (r: bool)
        ensures
            r == self.zero(),
    {
        self.bits == 0 || self.bits == SIGN
    }

    /// Whether the number is finite.
    pub fn is_finite(&self) -> (r: bool)
        ensures
            r == self.finite(),
    {
        let m: u64 = if self.bits >= SIGN {
            self.bits - SIGN
        } else {
            self.bits
        };
        m < INFINITY
    }

    /// The place of the number among the others.
    fn place(&self) -> (r: i64)
        ensures
            r == self.rank(),
    {
        if self.bits >= SIGN {
            -((self.bits - SIGN) as i64)
        } else {
            self.bits as i64
        }
    }

    /// Whether the two numbers are equal.
    pub fn equals(&self, other: &Real) -> (r: bool)
        ensures
            r == self.equal_to(*other),
    {
        !self.is_nan() && !other.is_nan() && self.place() == other.place()
    }

    /// Whether the number lies below the other.
    pub fn is_less(&self, other: &Real) -> (r: bool)
        ensures
            r == self.less_than(*other),
    {
        !self.is_nan() && !other.is_nan() && self.place() < other.place()
    }

    /// Whether the number lies below the other or equals it.
    pub fn is_at_most(&self, other: &Real) -> (r: bool)
        ensures
            r == (self.less_than(*other) || self.equal_to(*other)),
    {
        !self.is_nan() && !other.is_nan() && self.place() <= other.place()
    }

    /// The whole number `n`.
    pub fn from_count(n: u32) -> (r: Real)
        ensures
            r == whole(n as int),
            counts(r, n as int),
    {
        if n == 0 {
            let r = Real { bits: 0 };
            proof {
                assert(0 * pow2(1074) == 0) by (nonlinear_arith);
                counts_once(r, 0);
            }
            return r;
        }
        let count: u64 = n as u64;
        let mut low: u64 = 1;
        let mut share: u64 = STEP;
        let mut k: u64 = 0;
        proof {
            lemma2_to64();
            lemma2_to64_rest();
        }
        while low * 2 <= count
            invariant
                1 <= low <= count <= u32::MAX,
                low == pow2(k as nat),
                low * share == STEP,
                share % 2 == 0 || k >= 52,
                share == pow2((52 - k) as nat),
                k <= 31,
                count == n,
            decreases count - low,
        {
            proof {
                lemma_pow2_unfold((k + 1) as nat);
                lemma_pow2_unfold((52 - k) as nat);
                if k >= 31 {
                    lemma2_to64();
                    lemma2_to64_rest();
                }
                let next: int = pow2((51 - k) as nat) as int;
                assert(share == 2 * next);
                assert(share / 2 == next);
                assert((low * 2) * next == low * (2 * next)) by (nonlinear_arith);
                if k < 51 {
                    lemma_pow2_unfold((51 - k) as nat);
                }
            }
            low = low * 2;
            share = share / 2;
            k = k + 1;
        }
        let ghost rest = count - low;
        proof {
            lemma_pow2_pos((52 - k) as nat);
            assert(rest * share < low * share) by (nonlinear_arith)
                requires
                    rest < low,
                    share > 0,
            ;
            lemma_pow2_pos((52 - k) as nat);
            assert(rest * share >= 0) by (nonlinear_arith)
                requires
                    rest >= 0,
                    share > 0,
            ;
        }
        let fraction: u64 = (count - low) * share;
        let r = Real { bits: (1023 + k) * STEP + fraction };
        proof {
            assert(r.exponent() == 1023 + k && r.fraction() == fraction) by {
                assert(r.bits == (1023 + k) * STEP + fraction);
                assert(r.bits < SIGN);
            }
            let m = (STEP + fraction) as nat;
            assert(m * low == count * STEP) by (nonlinear_arith)
                requires
                    m == STEP + fraction,
                    fraction == (count - low) * share,
                    low * share == STEP,
            ;
            lemma_pow2_adds(1022, k as nat);
            lemma_pow2_adds(52, 1022);
            assert(pow2(52) == STEP) by {
                lemma2_to64();
                lemma2_to64_rest();
            }
            let h = pow2(1022);
            assert(m * (h * low) == count * (STEP * h)) by (nonlinear_arith)
                requires
                    m * low == count * STEP,
            ;
            counts_once(r, n as int);
        }
        r
    }

    /// A uniform draw falls below the number. The draw is the fraction of one that the
    /// upper 53 bits of `word` count in units of 2 to the -53.
    pub open spec fn above_draw(self, word: u64) -> bool {
        &&& !self.nan()
        &&& !self.negative()
        &&& !self.finite() || (word / 2048) * pow2(1021) < self.units()
    }

    /// Whether a uniform draw falls below the number.
    pub fn exceeds_draw(&self, word: u64) -> (r: bool)
        ensures
            r == self.above_draw(word),
    {
        if self.is_nan() || self.bits >= SIGN {
            return false;
        }
        if self.bits >= INFINITY {
            return true;
        }
        let draw: u64 = word / 2048;
        let e: u64 = self.bits / STEP;
        let f: u64 = self.bits % STEP;
        proof {
            lemma2_to64();
            lemma2_to64_rest();
            assert(draw < 0x20_0000_0000_0000);
        }
        if e >= 1023 {
            proof {
                // At least one, and the draw stays below one.
                let scale = pow2((e - 1) as nat);
                if e > 1023 {
                    lemma_pow2_strictly_increases(1022, (e - 1) as nat);
                }
                lemma_pow2_adds(1021, 1);
                lemma_pow2_pos(1021);
                let h = pow2(1021);
                assert(draw * h < (STEP + f) * scale) by (nonlinear_arith)
                    requires
                        draw < 0x20_0000_0000_0000,
                        STEP == 0x10_0000_0000_0000,
                        f >= 0,
                        h > 0,
                        scale >= h * 2,
                ;
            }
            return true;
        }
        let m: u64 = if e == 0 {
            f
        } else {
            STEP + f
        };
        let level: u64 = if e == 0 {
            1
        } else {
            e
        };
        let gap: u64 = 1022 - level;
        let ghost scale = pow2((level - 1) as nat);
        proof {
            lemma_pow2_adds(gap as nat, (level - 1) as nat);
            assert(pow2(0) == 1);
            assert(e == 0 ==> m * scale == m) by (nonlinear_arith)
                requires
                    e == 0 ==> scale == 1,
            ;
            assert(self.units() == m * scale);
            lemma_pow2_pos((level - 1) as nat);
            lemma_pow2_pos(gap as nat);
            let g = pow2(gap as nat);
            assert(draw * (g * scale) == (draw * g) * scale) by (nonlinear_arith);
            assert((draw * g) * scale < m * scale <==> draw * g < m) by (nonlinear_arith)
                requires
                    scale > 0,
            ;
        }
        if gap >= 53 {
            proof {
                let g = pow2(gap as nat);
                if gap > 53 {
                    lemma_pow2_strictly_increases(53, gap as nat);
                }
                assert(g >= 0x20_0000_0000_0000);
                assert(draw == 0 ==> draw * g == 0) by (nonlinear_arith);
                assert(draw >= 1 ==> draw * g >= g) by (nonlinear_arith);
            }
            return draw == 0 && m > 0;
        }
        let mut wide: u128 = draw as u128;
        let mut step: u64 = 0;
        while step < gap
            invariant
                step <= gap < 53,
                wide == draw * pow2(step as nat),
                draw < 0x20_0000_0000_0000,
                wide < 0x20_0000_0000_0000 * pow2(step as nat),
            decreases gap - step,
        {
            proof {
                lemma_pow2_unfold((step + 1) as nat);
                lemma2_to64();
                lemma2_to64_rest();
                let p = pow2(step as nat);
                lemma_pow2_strictly_increases(step as nat, 53);
                assert(p < 0x20_0000_0000_0000);
                assert(0x20_0000_0000_0000 * p < 0x20_0000_0000_0000 * 0x20_0000_0000_0000)
                    by (nonlinear_arith)
                    requires
                        p < 0x20_0000_0000_0000,
                ;
                assert(draw * (2 * p) == 2 * (draw * p)) by (nonlinear_arith);
            }
            wide = wide * 2;
            step = step + 1;
        }
        wide < m as u128
    }
}

/// A key for telling apart quantities by value: the two zeros share one.
pub fn float_key(x: Real) -> (r: u64)
    ensures
        r == key_of(x),
{
    if x.is_zero() {
        0
    } else {
        x.bits
    }
}

/// The key of a quantity.
pub open spec fn key_of(x: Real) -> u64 {
    if x.zero() {
        0
    } else {
        x.bits
    }
}

/// Two numbers share a key exactly when they are equal.
pub proof fn keys_tell_numbers_apart(a: Real, b: Real)
    requires
        !a.nan(),
        !b.nan(),
    ensures
        key_of(a) == key_of(b) <==> a.equal_to(b),
{
}

/// Equality of numbers is symmetric and transitive.
pub proof fn equal_to_equivalence(a: Real, b: Real, c: Real)
    ensures
        a.equal_to(b) == b.equal_to(a),
        a.equal_to(b) && b.equal_to(c) ==> a.equal_to(c),
        a.equal_to(a) == !a.nan(),
{
}

/// `r` is the whole number `n`.
pub open spec fn counts(r: Real, n: int) -> bool {
    r.finite() && !r.negative() && r.units() == n * pow2(1074)
}

/// The whole number `n`, where it is representable.
pub open spec fn whole(n: int) -> Real {
    choose|r: Real| counts(r, n)
}

/// A larger pattern without sign stands for a larger number.
pub proof fn units_grow(a: Real, b: Real)
    requires
        !a.negative(),
        !b.negative(),
        a.bits < b.bits,
        b.finite(),
    ensures
        a.units() < b.units(),
{
    let (e, f) = (a.exponent(), b.exponent());
    let step = STEP as int;
    assert(e <= f) by {
        vstd::arithmetic::div_mod::lemma_div_is_ordered(a.magnitude(), b.magnitude(), step);
    }
    vstd::arithmetic::div_mod::lemma_fundamental_div_mod(a.magnitude(), step);
    vstd::arithmetic::div_mod::lemma_fundamental_div_mod(b.magnitude(), step);
    let (p, q) = (a.fraction(), b.fraction());
    assert(0 <= p < step && 0 <= q < step);
    if e == f {
        assert(p < q);
        if e > 0 {
            let w = pow2((e - 1) as nat) as int;
            lemma_pow2_pos((e - 1) as nat);
            assert((step + p) * w < (step + q) * w) by (nonlinear_arith)
                requires
                    p < q,
                    w > 0,
            ;
        }
    } else {
        let w = pow2((f - 1) as nat) as int;
        lemma_pow2_pos((f - 1) as nat);
        assert((step + q) * w >= step * w) by (nonlinear_arith)
            requires
                q >= 0,
                w > 0,
        ;
        if e == 0 {
            assert(step * w >= step) by (nonlinear_arith)
                requires
                    w >= 1,
                    step > 0,
            ;
        } else {
            let v = pow2((e - 1) as nat) as int;
            lemma_pow2_adds((e - 1) as nat, (f - e) as nat);
            let z = pow2((f - e) as nat) as int;
            assert(w == v * z);
            lemma_pow2_pos((e - 1) as nat);
            lemma_pow2_unfold((f - e) as nat);
            lemma_pow2_pos((f - e - 1) as nat);
            assert(z >= 2);
            assert((step + p) * v < step * (v * z)) by (nonlinear_arith)
                requires
                    p < step,
                    z >= 2,
                    v > 0,
                    step > 0,
            ;
        }
    }
}

/// A whole number has one pattern.
pub proof fn counts_once(r: Real, n: int)
    requires
        counts(r, n),
    ensures
        r == whole(n),
{
    let c = whole(n);
    assert(counts(c, n));
    if r.bits < c.bits {
        units_grow(r, c);
    } else if c.bits < r.bits {
        units_grow(c, r);
    }
}

/// Below a positive number there is a largest power of two.
proof fn power_below(n: int) -> (k: nat)
    requires
        1 <= n <= u32::MAX,
    ensures
        k <= 31,
        pow2(k) <= n < 2 * pow2(k),
    decreases n,
{
    lemma2_to64();
    if n == 1 {
        0
    } else {
        let h = power_below(n / 2);
        lemma_pow2_unfold(h + 1);
        if h >= 31 {
            assert(pow2(31) == 0x8000_0000);
            vstd::arithmetic::power2::lemma_pow2_strictly_increases(30, 31);
            assert(pow2(h) >= pow2(31)) by {
                if h > 31 {
                    vstd::arithmetic::power2::lemma_pow2_strictly_increases(31, h);
                }
            }
        }
        h + 1
    }
}

/// Every count of 32 bits is a number.
pub proof fn counts_are_numbers(n: int)
    requires
        0 <= n <= u32::MAX,
    ensures
        counts(whole(n), n),
{
    lemma2_to64();
    lemma2_to64_rest();
    if n == 0 {
        let r = Real { bits: 0 };
        assert(0 * pow2(1074) == 0) by (nonlinear_arith);
        assert(counts(r, 0));
    } else {
        let k = power_below(n);
        let (low, share) = (pow2(k) as int, pow2((52 - k) as nat) as int);
        lemma_pow2_adds(k, (52 - k) as nat);
        lemma_pow2_pos((52 - k) as nat);
        let f = (n - low) * share;
        assert(0 <= f < STEP) by (nonlinear_arith)
            requires
                f == (n - low) * share,
                low * share == STEP,
                low <= n < 2 * low,
                share > 0,
        ;
        let r = Real { bits: ((1023 + k) * STEP + f) as u64 };
        assert(r.bits == (1023 + k) * STEP + f);
        assert(r.exponent() == 1023 + k && r.fraction() == f);
        let m = STEP + f;
        assert(m * low == n * STEP) by (nonlinear_arith)
            requires
                m == STEP + f,
                f == (n - low) * share,
                low * share == STEP,
        ;
        lemma_pow2_adds(1022, k);
        lemma_pow2_adds(52, 1022);
        assert(pow2(52) == STEP);
        let h = pow2(1022) as int;
        assert(m * (h * low) == n * (STEP * h)) by (nonlinear_arith)
            requires
                m * low == n * STEP,
        ;
        assert(counts(r, n));
    }
}

} // verus!
