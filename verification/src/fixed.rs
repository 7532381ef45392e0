//! Nonnegative saturating fixed-point arithmetic.
//!
//! Activation values, association strengths and configuration factors are
//! all represented as multiples of one billionth.  Arithmetic saturates at
//! the representable maximum and floors at zero, so every operation is
//! total: nothing here can overflow or panic.

use vstd::prelude::*;
use vstd::arithmetic::mul::lemma_mul_upper_bound;

verus! {

/// One unit (1.0) in the fixed-point scale: values count billionths.
pub const FX_ONE: u64 = 1_000_000_000;

/// A nonnegative fixed-point number: `raw` billionths of a unit.
#[derive(Clone, Copy, PartialEq, Eq, Structural, Debug)]
pub struct Fixed {
    /// The represented value times one billion.
    pub raw: u64,
}

/// Clamp an unbounded integer into the representable range.
pub open spec fn fx_sat(x: int) -> int {
    if x > u64::MAX as int {
        u64::MAX as int
    } else if x < 0 {
        0
    } else {
        x
    }
}

/// What saturating addition returns, on raw values.
pub open spec fn fx_add_spec(a: int, b: int) -> int {
    fx_sat(a + b)
}

/// What flooring subtraction returns, on raw values.
pub open spec fn fx_sub_spec(a: int, b: int) -> int {
    if a >= b {
        a - b
    } else {
        0
    }
}

/// What saturating fixed-point multiplication returns, on raw values.
pub open spec fn fx_mul_spec(a: int, b: int) -> int {
    fx_sat((a * b) / (FX_ONE as int))
}

/// What fixed-point division returns, on raw values; division by zero
/// gives zero, keeping the operation total.
pub open spec fn fx_div_spec(a: int, b: int) -> int {
    if b == 0 {
        0
    } else {
        fx_sat((a * (FX_ONE as int)) / b)
    }
}

/// How many squarings the exponential approximation performs.
pub const EXP_SQUARINGS: u64 = 12;

/// `2^EXP_SQUARINGS`: `e^(-x)` is approximated as `(1 - x/4096)^4096`,
/// computed by repeated squaring.
pub const EXP_SUBDIV: u64 = 4096;

/// The value reached after squaring `a` (in fixed point) `k` times.
pub open spec fn fx_sq_iter(a: int, k: nat) -> int
    decreases k,
{
    if k == 0 {
        a
    } else {
        let p = fx_sq_iter(a, (k - 1) as nat);
        fx_mul_spec(p, p)
    }
}

/// What the decaying exponential `e^(-x)` evaluates to, on raw values.
pub open spec fn fx_exp_neg_spec(x: int) -> int {
    let y = x / (EXP_SUBDIV as int);
    if y >= FX_ONE as int {
        0
    } else {
        fx_sq_iter(FX_ONE as int - y, EXP_SQUARINGS as nat)
    }
}

/// What the `d`-th fixed-point power of `r` evaluates to, on raw values.
pub open spec fn fx_pow_spec(r: int, d: nat) -> int
    decreases d,
{
    if d == 0 {
        FX_ONE as int
    } else {
        fx_mul_spec(fx_pow_spec(r, (d - 1) as nat), r)
    }
}

impl Fixed {
    /// The value one.
    pub fn one() -> (r: Fixed)
        ensures
            r.raw == FX_ONE,
    {
        Fixed { raw: FX_ONE }
    }

    /// Saturating addition.
    pub fn add(self, other: Fixed) -> (r: Fixed)
        ensures
            r.raw == fx_add_spec(self.raw as int, other.raw as int),
    {
        let s: u128 = self.raw as u128 + other.raw as u128;
        if s > u64::MAX as u128 {
            Fixed { raw: u64::MAX }
        } else {
            Fixed { raw: s as u64 }
        }
    }

    /// Subtraction flooring at zero.
    pub fn sub(self, other: Fixed) -> (r: Fixed)
        ensures
            r.raw == fx_sub_spec(self.raw as int, other.raw as int),
    {
        if self.raw >= other.raw {
            Fixed { raw: self.raw - other.raw }
        } else {
            Fixed { raw: 0 }
        }
    }

    /// Saturating fixed-point multiplication.
    pub fn mul(self, other: Fixed) -> (r: Fixed)
        ensures
            r.raw == fx_mul_spec(self.raw as int, other.raw as int),
    {
        proof {
            lemma_mul_upper_bound(self.raw as int, u64::MAX as int, other.raw as int, u64::MAX as int);
        }
        let p: u128 = (self.raw as u128) * (other.raw as u128);
        let q: u128 = p / (FX_ONE as u128);
        if q > u64::MAX as u128 {
            Fixed { raw: u64::MAX }
        } else {
            Fixed { raw: q as u64 }
        }
    }

    /// Fixed-point division; division by zero gives zero.
    pub fn div(self, other: Fixed) -> (r: Fixed)
        ensures
            r.raw == fx_div_spec(self.raw as int, other.raw as int),
    {
        if other.raw == 0 {
            Fixed { raw: 0 }
        } else {
            proof {
                lemma_mul_upper_bound(self.raw as int, u64::MAX as int, FX_ONE as int, u64::MAX as int);
            }
            let p: u128 = (self.raw as u128) * (FX_ONE as u128);
            let q: u128 = p / (other.raw as u128);
            if q > u64::MAX as u128 {
                Fixed { raw: u64::MAX }
            } else {
                Fixed { raw: q as u64 }
            }
        }
    }
    /// Build the value `n` (whole units), saturating.
    pub fn from_units(n: u64) -> (r: Fixed)
        ensures
            r.raw == fx_sat(n * FX_ONE),
    {
        proof {
            lemma_mul_upper_bound(n as int, u64::MAX as int, FX_ONE as int, FX_ONE as int);
        }
        let p: u128 = (n as u128) * (FX_ONE as u128);
        if p > u64::MAX as u128 {
            Fixed { raw: u64::MAX }
        } else {
            Fixed { raw: p as u64 }
        }
    }

    /// The decaying exponential `e^(-self)`, by `EXP_SQUARINGS` squarings
    /// of `1 - self/EXP_SUBDIV`.
    pub fn exp_neg(self) -> (r: Fixed)
        ensures
            r.raw == fx_exp_neg_spec(self.raw as int),
    {
        let y: u64 = self.raw / EXP_SUBDIV;
        if y >= FX_ONE {
            Fixed { raw: 0 }
        } else {
            let base: u64 = FX_ONE - y;
            let mut b = Fixed { raw: base };
            let mut i: u64 = 0;
            while i < EXP_SQUARINGS
                invariant
                    i <= EXP_SQUARINGS,
                    b.raw == fx_sq_iter(base as int, i as nat),
                decreases EXP_SQUARINGS - i,
            {
                b = b.mul(b);
                i = i + 1;
            }
            b
        }
    }

    /// The `d`-th fixed-point power of `self`.
    pub fn pow(self, d: usize) -> (r: Fixed)
        ensures
            r.raw == fx_pow_spec(self.raw as int, d as nat),
    {
        let mut acc = Fixed { raw: FX_ONE };
        let mut i: usize = 0;
        while i < d
            invariant
                i <= d,
                acc.raw == fx_pow_spec(self.raw as int, i as nat),
            decreases d - i,
        {
            acc = acc.mul(self);
            i = i + 1;
        }
        acc
    }
}

/// Powers stay within the representable range.
pub proof fn lemma_fx_pow_bounds(r: int, d: nat)
    ensures
        0 <= fx_pow_spec(r, d) <= u64::MAX as int,
    decreases d,
{
    if d > 0 {
        lemma_fx_pow_bounds(r, (d - 1) as nat);
    }
}

proof fn lemma_fx_sq_iter_bounds(a: int, k: nat)
    requires
        0 <= a <= FX_ONE as int,
    ensures
        0 <= fx_sq_iter(a, k) <= FX_ONE as int,
    decreases k,
{
    if k > 0 {
        lemma_fx_sq_iter_bounds(a, (k - 1) as nat);
        let p = fx_sq_iter(a, (k - 1) as nat);
        lemma_mul_upper_bound(p, FX_ONE as int, p, FX_ONE as int);
        assert((FX_ONE as int) * (FX_ONE as int) / (FX_ONE as int) == FX_ONE as int) by {
            vstd::arithmetic::div_mod::lemma_div_by_multiple(FX_ONE as int, FX_ONE as int);
        }
        vstd::arithmetic::div_mod::lemma_div_is_ordered(p * p, (FX_ONE as int) * (FX_ONE as int), FX_ONE as int);
        assert(p * p >= 0) by {
            vstd::arithmetic::mul::lemma_mul_nonnegative(p, p);
        }
        assert((p * p) / (FX_ONE as int) >= 0) by {
            vstd::arithmetic::div_mod::lemma_div_pos_is_pos(p * p, FX_ONE as int);
        }
    }
}

/// The decaying exponential stays between zero and one.
pub proof fn lemma_fx_exp_neg_bounds(x: int)
    requires
        0 <= x,
    ensures
        0 <= fx_exp_neg_spec(x) <= FX_ONE as int,
{
    let y = x / (EXP_SUBDIV as int);
    if y < FX_ONE as int {
        assert(y >= 0) by {
            vstd::arithmetic::div_mod::lemma_div_pos_is_pos(x, EXP_SUBDIV as int);
        }
        lemma_fx_sq_iter_bounds(FX_ONE as int - y, EXP_SQUARINGS as nat);
    }
}

/// Multiplying a positive value by a factor below one strictly shrinks it.
pub proof fn lemma_fx_mul_below_one(p: int, r: int)
    requires
        0 < p <= u64::MAX as int,
        0 <= r < FX_ONE as int,
    ensures
        fx_mul_spec(p, r) < p,
{
    let k = FX_ONE as int;
    assert(p * r <= p * (k - 1)) by {
        vstd::arithmetic::mul::lemma_mul_inequality(r, k - 1, p);
        vstd::arithmetic::mul::lemma_mul_is_commutative(p, r);
        vstd::arithmetic::mul::lemma_mul_is_commutative(p, k - 1);
    }
    assert(p * (k - 1) <= k * (p - 1) + (k - 1)) by {
        vstd::arithmetic::mul::lemma_mul_is_distributive_sub(p, k, 1);
        vstd::arithmetic::mul::lemma_mul_is_distributive_sub(k, p, 1);
        vstd::arithmetic::mul::lemma_mul_is_commutative(p, k);
        vstd::arithmetic::mul::lemma_mul_basics(p);
        vstd::arithmetic::mul::lemma_mul_basics(k);
    }
    assert((k * (p - 1) + (k - 1)) / k == p - 1) by {
        vstd::arithmetic::div_mod::lemma_div_multiples_vanish_fancy(p - 1, k - 1, k);
    }
    vstd::arithmetic::div_mod::lemma_div_is_ordered(p * r, k * (p - 1) + (k - 1), k);
    assert(p * r >= 0) by {
        vstd::arithmetic::mul::lemma_mul_nonnegative(p, r);
    }
    assert((p * r) / k >= 0) by {
        vstd::arithmetic::div_mod::lemma_div_pos_is_pos(p * r, k);
    }
}

/// Raising the first factor by enough to move the truncated product makes
/// the product strictly larger.
pub proof fn lemma_fx_mul_strictly_ordered(a1: int, a2: int, b: int)
    requires
        0 <= a1 < a2,
        0 <= b,
        (a2 - a1) * b >= FX_ONE as int,
        (a2 * b) / (FX_ONE as int) <= u64::MAX as int,
    ensures
        fx_mul_spec(a1, b) < fx_mul_spec(a2, b),
{
    assert(a1 * b + (a2 - a1) * b == a2 * b) by {
        vstd::arithmetic::mul::lemma_mul_is_distributive_add_other_way(b, a1, a2 - a1);
    }
    assert(a1 * b + FX_ONE as int <= a2 * b);
    assert((FX_ONE as int + a1 * b) / (FX_ONE as int) == 1 + a1 * b / (FX_ONE as int)) by {
        vstd::arithmetic::div_mod::lemma_div_plus_one(a1 * b, FX_ONE as int);
    }
    vstd::arithmetic::div_mod::lemma_div_is_ordered(a1 * b + FX_ONE as int, a2 * b, FX_ONE as int);
    assert(a1 * b >= 0) by {
        vstd::arithmetic::mul::lemma_mul_nonnegative(a1, b);
    }
    assert(a1 * b / (FX_ONE as int) >= 0) by {
        vstd::arithmetic::div_mod::lemma_div_pos_is_pos(a1 * b, FX_ONE as int);
    }
}

} // verus!
