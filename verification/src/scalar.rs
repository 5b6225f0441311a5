//! Exact rational scalars.
//!
//! A `Scalar` is either the exact rational `num / den` (when `den > 0`) or
//! the single undefined scalar (when `den == 0`). Degenerate results —
//! division by zero, magnitudes that no longer fit the representation,
//! function values that are irrational — all collapse to the undefined
//! scalar, which then propagates silently through every later operation,
//! the same way degenerate values propagate through an engine built on
//! machine floats. No operation here panics.

use vstd::prelude::*;

verus! {

/// An exact scalar: the rational `num / den` when `den > 0`, undefined when
/// `den == 0`. Fractions are not reduced; a zero is always stored as `0 / 1`.
#[derive(Clone, Copy, Debug, PartialEq, Eq, Structural)]
pub struct Scalar {
    pub num: i64,
    pub den: i64,
}

/// Well-formed representation: the denominator is never negative, the
/// undefined scalar is exactly `0 / 0`, and zero is exactly `0 / 1`.
pub open spec fn s_wf(s: Scalar) -> bool {
    &&& s.den >= 0
    &&& (s.den == 0 ==> s.num == 0)
    &&& (s.num == 0 && s.den > 0 ==> s.den == 1)
}

/// A scalar carries a value exactly when its denominator is positive.
pub open spec fn s_defined(s: Scalar) -> bool {
    s.den > 0
}

pub open spec fn s_zero() -> Scalar {
    Scalar { num: 0, den: 1 }
}

pub open spec fn s_one() -> Scalar {
    Scalar { num: 1, den: 1 }
}

pub open spec fn s_undef() -> Scalar {
    Scalar { num: 0, den: 0 }
}

/// Whether a mathematical integer fits the `i64` components of a `Scalar`.
pub open spec fn s_fits(x: int) -> bool {
    -0x8000_0000_0000_0000 <= x <= 0x7fff_ffff_ffff_ffff
}

/// Store the rational `n / d` (with `d > 0`, both in range), putting zero
/// into its canonical form.
pub open spec fn s_norm(n: int, d: int) -> Scalar {
    if n == 0 {
        s_zero()
    } else {
        Scalar { num: n as i64, den: d as i64 }
    }
}

/// Store the rational `n / d` (with `d > 0`), or the undefined scalar where
/// a component is out of range.
pub open spec fn s_make(n: int, d: int) -> Scalar {
    if s_fits(n) && s_fits(d) {
        s_norm(n, d)
    } else {
        s_undef()
    }
}

/// Exact addition: `a + b`, undefined inputs and overflowing results are
/// undefined. Operands that already share a denominator keep it, so a long
/// running total over one scale does not inflate its denominator.
pub open spec fn s_add(a: Scalar, b: Scalar) -> Scalar {
    if !s_defined(a) || !s_defined(b) {
        s_undef()
    } else if a.den == b.den {
        s_make(a.num as int + b.num as int, a.den as int)
    } else {
        s_make(
            a.num as int * b.den as int + b.num as int * a.den as int,
            a.den as int * b.den as int,
        )
    }
}

/// Exact negation.
pub open spec fn s_neg(a: Scalar) -> Scalar {
    if !s_defined(a) {
        s_undef()
    } else {
        s_make(-(a.num as int), a.den as int)
    }
}

/// Exact subtraction: `a - b`.
pub open spec fn s_sub(a: Scalar, b: Scalar) -> Scalar {
    s_add(a, s_neg(b))
}

/// Exact multiplication: `a * b`.
pub open spec fn s_mul(a: Scalar, b: Scalar) -> Scalar {
    if !s_defined(a) || !s_defined(b) {
        s_undef()
    } else {
        s_make(a.num as int * b.num as int, a.den as int * b.den as int)
    }
}

/// Exact division: `a / b`; division by zero is undefined.
pub open spec fn s_div(a: Scalar, b: Scalar) -> Scalar {
    if !s_defined(a) || !s_defined(b) || b.num == 0 {
        s_undef()
    } else if b.num < 0 {
        s_make(-(a.num as int * b.den as int), -(a.den as int * b.num as int))
    } else {
        s_make(a.num as int * b.den as int, a.den as int * b.num as int)
    }
}

/// Two scalars carry the same value (cross multiplication), or are both
/// undefined.
pub open spec fn s_same(a: Scalar, b: Scalar) -> bool {
    if !s_defined(a) || !s_defined(b) {
        !s_defined(a) && !s_defined(b)
    } else {
        a.num as int * b.den as int == b.num as int * a.den as int
    }
}

/// A defined, strictly positive value.
pub open spec fn s_is_pos(s: Scalar) -> bool {
    s_defined(s) && s.num > 0
}

/// The bound on a product of two `i64` components: `2^126`.
pub proof fn lemma_i64_prod_bound(a: int, b: int)
    requires
        -0x8000_0000_0000_0000 <= a <= 0x7fff_ffff_ffff_ffff,
        -0x8000_0000_0000_0000 <= b <= 0x7fff_ffff_ffff_ffff,
    ensures
        -0x4000_0000_0000_0000_0000_0000_0000_0000 <= a * b
            <= 0x4000_0000_0000_0000_0000_0000_0000_0000,
{
    assert(-0x4000_0000_0000_0000_0000_0000_0000_0000 <= a * b
        <= 0x4000_0000_0000_0000_0000_0000_0000_0000) by (nonlinear_arith)
        requires
            -0x8000_0000_0000_0000 <= a <= 0x7fff_ffff_ffff_ffff,
            -0x8000_0000_0000_0000 <= b <= 0x7fff_ffff_ffff_ffff,
    ;
}

/// A tighter bound when one factor is a positive denominator: the product
/// stays strictly inside `2^126`.
pub proof fn lemma_i64_prod_posden_bound(a: int, b: int)
    requires
        -0x8000_0000_0000_0000 <= a <= 0x7fff_ffff_ffff_ffff,
        1 <= b <= 0x7fff_ffff_ffff_ffff,
    ensures
        -0x4000_0000_0000_0000_0000_0000_0000_0000 < a * b
            < 0x4000_0000_0000_0000_0000_0000_0000_0000,
{
    assert(-0x4000_0000_0000_0000_0000_0000_0000_0000 < a * b
        < 0x4000_0000_0000_0000_0000_0000_0000_0000) by (nonlinear_arith)
        requires
            -0x8000_0000_0000_0000 <= a <= 0x7fff_ffff_ffff_ffff,
            1 <= b <= 0x7fff_ffff_ffff_ffff,
    ;
}

/// The sign of a product whose first factor is a positive denominator.
pub proof fn lemma_posden_prod_sign(a: int, b: int)
    requires
        1 <= a,
    ensures
        b > 0 ==> a * b >= b,
        b < 0 ==> a * b <= b,
        b == 0 ==> a * b == 0,
{
    assert((b > 0 ==> a * b >= b) && (b < 0 ==> a * b <= b) && (b == 0 ==> a * b == 0))
        by (nonlinear_arith)
        requires
            1 <= a,
    ;
}

impl Scalar {
    /// The canonical zero.
    pub fn zero() -> (r: Scalar)
        ensures
            r == s_zero(),
    {
        Scalar { num: 0, den: 1 }
    }

    /// The canonical one.
    pub fn one() -> (r: Scalar)
        ensures
            r == s_one(),
    {
        Scalar { num: 1, den: 1 }
    }

    /// The undefined scalar.
    pub fn undefined() -> (r: Scalar)
        ensures
            r == s_undef(),
    {
        Scalar { num: 0, den: 0 }
    }

    /// The exact integer `n`.
    pub fn from_int(n: i64) -> (r: Scalar)
        ensures
            r == s_norm(n as int, 1),
            s_wf(r),
            s_defined(r),
    {
        if n == 0 {
            Scalar { num: 0, den: 1 }
        } else {
            Scalar { num: n, den: 1 }
        }
    }

    /// The exact rational `n / d`; undefined when `d` is zero or a
    /// component does not fit after making the denominator positive.
    pub fn from_ratio(n: i64, d: i64) -> (r: Scalar)
        ensures
            r == s_from_ratio(n, d),
            s_wf(r),
    {
        if d == 0 {
            Scalar { num: 0, den: 0 }
        } else if d < 0 {
            Scalar::make128(-(n as i128), -(d as i128))
        } else {
            Scalar::make128(n as i128, d as i128)
        }
    }

    /// Store `n / d` with `d > 0`, mapping out-of-range components to the
    /// undefined scalar.
    fn make128(n: i128, d: i128) -> (r: Scalar)
        requires
            d > 0,
        ensures
            r == s_make(n as int, d as int),
            s_wf(r),
    {
        if n < -0x8000_0000_0000_0000i128 || n > 0x7fff_ffff_ffff_ffffi128
            || d > 0x7fff_ffff_ffff_ffffi128 {
            Scalar { num: 0, den: 0 }
        } else if n == 0 {
            Scalar { num: 0, den: 1 }
        } else {
            Scalar { num: n as i64, den: d as i64 }
        }
    }

    /// Whether this scalar carries a value.
    pub fn is_defined(&self) -> (b: bool)
        ensures
            b == s_defined(*self),
    {
        self.den > 0
    }

    /// Whether this scalar carries a strictly positive value.
    pub fn is_positive(&self) -> (b: bool)
        ensures
            b == s_is_pos(*self),
    {
        self.den > 0 && self.num > 0
    }

    /// Whether two scalars carry the same value (or are both undefined).
    pub fn same_value(&self, other: &Scalar) -> (b: bool)
        requires
            s_wf(*self),
            s_wf(*other),
        ensures
            b == s_same(*self, *other),
    {
        if self.den == 0 || other.den == 0 {
            self.den == 0 && other.den == 0
        } else {
            proof {
                lemma_i64_prod_bound(self.num as int, other.den as int);
                lemma_i64_prod_bound(other.num as int, self.den as int);
            }
            (self.num as i128) * (other.den as i128) == (other.num as i128) * (self.den as i128)
        }
    }

    /// Exact addition.
    pub fn add(self, other: Scalar) -> (r: Scalar)
        requires
            s_wf(self),
            s_wf(other),
        ensures
            r == s_add(self, other),
            s_wf(r),
    {
        if self.den <= 0 || other.den <= 0 {
            return Scalar { num: 0, den: 0 };
        }
        if self.den == other.den {
            return Scalar::make128((self.num as i128) + (other.num as i128), self.den as i128);
        }
        proof {
            lemma_i64_prod_posden_bound(self.num as int, other.den as int);
            lemma_i64_prod_posden_bound(other.num as int, self.den as int);
            lemma_i64_prod_posden_bound(self.den as int, other.den as int);
            lemma_posden_prod_sign(self.den as int, other.den as int);
        }
        let n1: i128 = (self.num as i128) * (other.den as i128);
        let n2: i128 = (other.num as i128) * (self.den as i128);
        let d: i128 = (self.den as i128) * (other.den as i128);
        Scalar::make128(n1 + n2, d)
    }

    /// Exact negation.
    pub fn neg(self) -> (r: Scalar)
        requires
            s_wf(self),
        ensures
            r == s_neg(self),
            s_wf(r),
    {
        if self.den <= 0 {
            return Scalar { num: 0, den: 0 };
        }
        Scalar::make128(-(self.num as i128), self.den as i128)
    }

    /// Exact subtraction.
    pub fn sub(self, other: Scalar) -> (r: Scalar)
        requires
            s_wf(self),
            s_wf(other),
        ensures
            r == s_sub(self, other),
            s_wf(r),
    {
        self.add(other.neg())
    }

    /// Exact multiplication.
    pub fn mul(self, other: Scalar) -> (r: Scalar)
        requires
            s_wf(self),
            s_wf(other),
        ensures
            r == s_mul(self, other),
            s_wf(r),
    {
        if self.den <= 0 || other.den <= 0 {
            return Scalar { num: 0, den: 0 };
        }
        proof {
            lemma_i64_prod_bound(self.num as int, other.num as int);
            lemma_i64_prod_posden_bound(self.den as int, other.den as int);
            lemma_posden_prod_sign(self.den as int, other.den as int);
        }
        let n: i128 = (self.num as i128) * (other.num as i128);
        let d: i128 = (self.den as i128) * (other.den as i128);
        Scalar::make128(n, d)
    }

    /// Exact division; division by zero gives the undefined scalar.
    pub fn div(self, other: Scalar) -> (r: Scalar)
        requires
            s_wf(self),
            s_wf(other),
        ensures
            r == s_div(self, other),
            s_wf(r),
    {
        if self.den <= 0 || other.den <= 0 || other.num == 0 {
            return Scalar { num: 0, den: 0 };
        }
        proof {
            lemma_i64_prod_posden_bound(self.num as int, other.den as int);
            lemma_i64_prod_bound(self.den as int, other.num as int);
            lemma_posden_prod_sign(self.den as int, other.num as int);
        }
        let n: i128 = (self.num as i128) * (other.den as i128);
        let d: i128 = (self.den as i128) * (other.num as i128);
        if d < 0 {
            Scalar::make128(-n, -d)
        } else {
            Scalar::make128(n, d)
        }
    }
}

/// The reciprocal of a nonzero defined scalar, with the denominator kept
/// positive.
pub open spec fn s_flip(a: Scalar) -> Scalar {
    if a.num == 0 {
        s_undef()
    } else if a.num > 0 {
        s_make(a.den as int, a.num as int)
    } else {
        s_make(-(a.den as int), -(a.num as int))
    }
}

/// `a` multiplied by itself `n` times (the empty product is one).
pub open spec fn s_chain(a: Scalar, n: nat) -> Scalar
    decreases n,
{
    if n == 0 {
        s_one()
    } else {
        s_mul(s_chain(a, (n - 1) as nat), a)
    }
}

/// `a` raised to the mathematical integer `e`. Bases of magnitude one and
/// the zero base are exact for every exponent; `0` to a negative power is
/// undefined.
pub open spec fn s_powi(a: Scalar, e: int) -> Scalar {
    if !s_defined(a) {
        s_undef()
    } else if e == 0 {
        s_one()
    } else if a.num == 0 {
        if e > 0 {
            s_zero()
        } else {
            s_undef()
        }
    } else if a.num == a.den {
        s_one()
    } else if a.num as int == -(a.den as int) {
        if e % 2 == 0 {
            s_one()
        } else {
            s_make(-1, 1)
        }
    } else if e > 0 {
        s_chain(a, e as nat)
    } else {
        s_chain(s_flip(a), (-e) as nat)
    }
}

/// Exact exponentiation `a ^ b`. In an exact scalar domain a power is a
/// rational only when the exponent is an integer, so any other exponent
/// yields the undefined scalar.
pub open spec fn s_pow(a: Scalar, b: Scalar) -> Scalar {
    if !s_defined(a) || !s_defined(b) {
        s_undef()
    } else if b.num as int % b.den as int != 0 {
        s_undef()
    } else {
        s_powi(a, b.num as int / b.den as int)
    }
}

/// Exact hyperbolic tangent. The hyperbolic tangent of a nonzero rational
/// is irrational, so zero is the only input with a defined result.
pub open spec fn s_tanh(a: Scalar) -> Scalar {
    if !s_defined(a) {
        s_undef()
    } else if a.num == 0 {
        s_zero()
    } else {
        s_undef()
    }
}

/// Rectified linear unit: the value itself when positive, else zero.
pub open spec fn s_relu(a: Scalar) -> Scalar {
    if !s_defined(a) {
        s_undef()
    } else if a.num > 0 {
        a
    } else {
        s_zero()
    }
}

/// Multiplication keeps scalars well-formed.
pub proof fn lemma_s_mul_wf(a: Scalar, b: Scalar)
    requires
        s_wf(a),
        s_wf(b),
    ensures
        s_wf(s_mul(a, b)),
{
    if s_defined(a) && s_defined(b) {
        lemma_posden_prod_sign(a.den as int, b.den as int);
    }
}

/// Once a repeated product has become undefined it stays undefined.
pub proof fn lemma_chain_undef(a: Scalar, i: nat, n: nat)
    requires
        i <= n,
        !s_defined(s_chain(a, i)),
    ensures
        !s_defined(s_chain(a, n)),
    decreases n - i,
{
    if n > i {
        lemma_chain_undef(a, i, (n - 1) as nat);
    }
}

/// Repeated products of well-formed scalars stay well-formed.
pub proof fn lemma_chain_wf(a: Scalar, n: nat)
    requires
        s_wf(a),
    ensures
        s_wf(s_chain(a, n)),
    decreases n,
{
    if n > 0 {
        lemma_chain_wf(a, (n - 1) as nat);
        lemma_s_mul_wf(s_chain(a, (n - 1) as nat), a);
    }
}

/// Negating an integer keeps its parity.
proof fn lemma_neg_parity(m: int)
    requires
        m >= 0,
    ensures
        (-m) % 2 == m % 2,
{
    vstd::arithmetic::div_mod::lemma_fundamental_div_mod(m, 2);
    let q = m / 2;
    let r = m % 2;
    if r == 0 {
        vstd::arithmetic::div_mod::lemma_fundamental_div_mod_converse_mod(-m, 2, -q, 0);
    } else {
        assert(-m == (-q - 1) * 2 + (2 - r)) by (nonlinear_arith)
            requires
                m == q * 2 + r,
        ;
        vstd::arithmetic::div_mod::lemma_fundamental_div_mod_converse_mod(-m, 2, -q - 1, 2 - r);
    }
}

impl Scalar {
    /// The reciprocal, with the denominator kept positive.
    fn flip(self) -> (r: Scalar)
        requires
            s_wf(self),
            s_defined(self),
        ensures
            r == s_flip(self),
            s_wf(r),
    {
        if self.num > 0 {
            Scalar::make128(self.den as i128, self.num as i128)
        } else if self.num < 0 {
            Scalar::make128(-(self.den as i128), -(self.num as i128))
        } else {
            // reciprocal of zero: the sign-fixed denominator `-0` is not
            // positive, so the stored pair is out of range
            Scalar { num: 0, den: 0 }
        }
    }

    /// `self` raised to an integer exponent of magnitude `mag`, negative
    /// when `neg` holds.
    #[verifier::loop_isolation(false)]
    fn powi(self, neg: bool, mag: u64) -> (r: Scalar)
        requires
            s_wf(self),
            s_defined(self),
        ensures
            r == s_powi(self, if neg { -(mag as int) } else { mag as int }),
            s_wf(r),
    {
        let ghost e: int = if neg { -(mag as int) } else { mag as int };
        if mag == 0 {
            return Scalar::one();
        }
        if self.num == 0 {
            if neg {
                return Scalar { num: 0, den: 0 };
            } else {
                return Scalar::zero();
            }
        }
        if self.num == self.den {
            return Scalar::one();
        }
        if (self.num as i128) == -(self.den as i128) {
            proof {
                if neg {
                    lemma_neg_parity(mag as int);
                }
            }
            if mag % 2 == 0 {
                return Scalar::one();
            } else {
                return Scalar { num: -1, den: 1 };
            }
        }
        let base = if neg {
            self.flip()
        } else {
            self
        };
        proof {
            assert(s_powi(self, e) == s_chain(base, mag as nat));
        }
        let mut acc = Scalar::one();
        let mut i: u64 = 0;
        while i < mag
            invariant
                i <= mag,
                s_wf(acc),
                acc == s_chain(base, i as nat),
            decreases mag - i,
        {
            if acc.den == 0 {
                proof {
                    lemma_chain_undef(base, i as nat, mag as nat);
                    lemma_chain_wf(base, mag as nat);
                }
                return Scalar { num: 0, den: 0 };
            }
            acc = acc.mul(base);
            i = i + 1;
        }
        acc
    }

    /// Exact exponentiation; exponents that are not exact integers give
    /// the undefined scalar.
    pub fn pow(self, other: Scalar) -> (r: Scalar)
        requires
            s_wf(self),
            s_wf(other),
        ensures
            r == s_pow(self, other),
            s_wf(r),
    {
        if self.den <= 0 || other.den <= 0 {
            return Scalar { num: 0, den: 0 };
        }
        let m: i128 = other.num as i128;
        let neg: bool = m < 0;
        let mag: u64 = if neg {
            (-m) as u64
        } else {
            m as u64
        };
        let d: u64 = other.den as u64;
        let q: u64 = mag / d;
        let rr: u64 = mag % d;
        proof {
            vstd::arithmetic::div_mod::lemma_fundamental_div_mod(mag as int, d as int);
            let num = other.num as int;
            let den = other.den as int;
            assert(mag as int == den * (mag as int / den) + (mag as int % den));
            assert(q as int == mag as int / den);
            assert(rr as int == mag as int % den);
            if neg {
                assert(num == -(mag as int));
                if rr == 0 {
                    assert(num == (-(q as int)) * den + 0) by (nonlinear_arith)
                        requires
                            num == -(mag as int),
                            mag as int == den * (q as int),
                    ;
                    vstd::arithmetic::div_mod::lemma_fundamental_div_mod_converse_mod(
                        num, den, -(q as int), 0);
                    vstd::arithmetic::div_mod::lemma_fundamental_div_mod_converse_div(
                        num, den, -(q as int), 0);
                } else {
                    assert(num == (-(q as int) - 1) * den + (den - rr)) by (nonlinear_arith)
                        requires
                            num == -(mag as int),
                            mag as int == den * (q as int) + rr,
                    ;
                    vstd::arithmetic::div_mod::lemma_fundamental_div_mod_converse_mod(
                        num, den, -(q as int) - 1, den - rr);
                }
            } else {
                assert(num == mag as int);
                assert(num == q as int * den + rr as int) by (nonlinear_arith)
                    requires
                        num == mag as int,
                        mag as int == den * (q as int) + rr as int,
                ;
                vstd::arithmetic::div_mod::lemma_fundamental_div_mod_converse_mod(
                    num, den, q as int, rr as int);
                vstd::arithmetic::div_mod::lemma_fundamental_div_mod_converse_div(
                    num, den, q as int, rr as int);
            }
        }
        if rr != 0 {
            return Scalar { num: 0, den: 0 };
        }
        self.powi(neg, q)
    }

    /// Exact hyperbolic tangent: defined only at zero in an exact scalar
    /// domain.
    pub fn tanh(self) -> (r: Scalar)
        requires
            s_wf(self),
        ensures
            r == s_tanh(self),
            s_wf(r),
    {
        if self.den <= 0 {
            Scalar { num: 0, den: 0 }
        } else if self.num == 0 {
            Scalar::zero()
        } else {
            Scalar { num: 0, den: 0 }
        }
    }

    /// Rectified linear unit.
    pub fn relu(self) -> (r: Scalar)
        requires
            s_wf(self),
        ensures
            r == s_relu(self),
            s_wf(r),
    {
        if self.den <= 0 {
            Scalar { num: 0, den: 0 }
        } else if self.num > 0 {
            self
        } else {
            Scalar::zero()
        }
    }
}

/// The value `from_ratio` stores for `n / d`.
pub open spec fn s_from_ratio(n: i64, d: i64) -> Scalar {
    if d == 0 {
        s_undef()
    } else if d < 0 {
        s_make(-(n as int), -(d as int))
    } else {
        s_make(n as int, d as int)
    }
}

} // verus!
