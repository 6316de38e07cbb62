//! Parts-per-billion ratios.

use vstd::prelude::*;

verus! {

/// The number of parts that make a whole.
pub const BILLION: u32 = 1_000_000_000;

/// The number of parts per billion that `p / q` amounts to, rounded down.
/// A ratio above one, or over zero, counts as one.
pub open spec fn rational_parts(p: int, q: int) -> int {
    if q <= 0 || p > q {
        BILLION as int
    } else {
        (p * (BILLION as int)) / q
    }
}

/// `parts` billionths of `b`, rounded down. More than a billion parts count
/// as a billion.
pub open spec fn parts_of(parts: int, b: int) -> int {
    if parts >= BILLION as int {
        b
    } else {
        (b * parts) / (BILLION as int)
    }
}

/// `sp_arithmetic::Perbill::from_rational` on two `u64`, handed back as its
/// parts. The crate multiplies `p` by a billion in 128 bits and divides by
/// `q`, dropping the remainder; where `q` is zero or `p` exceeds `q` it
/// answers with one whole.
#[verifier::external_body]
fn parts_from_rational(p: u64, q: u64) -> (parts: u32)
    ensures
        parts as int == rational_parts(p as int, q as int),
{
    sp_arithmetic::Perbill::from_rational(p, q).deconstruct()
}

/// `sp_arithmetic::Perbill::mul_floor` on a `u64`, for the ratio that
/// `Perbill::from_parts` makes of `parts`. The crate caps the parts at a
/// billion, multiplies the whole billions of `b` by them, and adds the
/// remainder's share computed in 64 bits and rounded down: together the
/// rounded-down product.
#[verifier::external_body]
fn parts_mul_floor(parts: u32, b: u64) -> (r: u64)
    ensures
        r as int == parts_of(parts as int, b as int),
{
    sp_arithmetic::Perbill::from_parts(parts).mul_floor(b)
}

/// A ratio between zero and one, in parts per billion.
#[derive(Clone, Copy, Debug)]
pub struct Perbill {
    parts: u32,
}

impl Perbill {
    /// The parts per billion that this ratio stands for.
    pub closed spec fn view(&self) -> int {
        self.parts as int
    }

    /// Every ratio lies between zero and one.
    pub closed spec fn wf(&self) -> bool {
        self.parts <= BILLION
    }

    /// A ratio in order stands for at most a billion parts.
    pub proof fn lemma_wf(&self)
        requires
            self.wf(),
        ensures
            0 <= self@ <= BILLION,
    {
    }

    /// The ratio of `millionths` millionths, at most one.
    pub fn from_millionths(millionths: u32) -> (r: Perbill)
        ensures
            r.wf(),
            r@ == if millionths <= 1_000_000 { millionths * 1000 } else { BILLION as int },
    {
        if millionths <= 1_000_000 {
            Perbill { parts: millionths * 1000 }
        } else {
            Perbill { parts: BILLION }
        }
    }

    /// The ratio of `parts` billionths, at most one.
    pub fn from_parts(parts: u32) -> (r: Perbill)
        ensures
            r.wf(),
            r@ == if parts <= BILLION { parts as int } else { BILLION as int },
    {
        if parts <= BILLION {
            Perbill { parts }
        } else {
            Perbill { parts: BILLION }
        }
    }

    /// The parts per billion of this ratio.
    pub fn deconstruct(&self) -> (parts: u32)
        ensures
            parts as int == self@,
    {
        self.parts
    }

    /// The ratio `p / q` rounded down to a whole number of billionths.
    pub fn from_rational_approximation(p: u64, q: u64) -> (r: Perbill)
        ensures
            r.wf(),
            r@ == rational_parts(p as int, q as int),
    {
        let parts = parts_from_rational(p, q);
        proof {
            lemma_rational_parts_bound(p as int, q as int);
        }
        Perbill { parts }
    }

    /// This ratio of `b`, rounded down.
    pub fn mul_floor(&self, b: u64) -> (r: u64)
        requires
            self.wf(),
        ensures
            r as int == parts_of(self@, b as int),
            r <= b,
    {
        proof {
            lemma_parts_of_bound(self@, b as int);
        }
        parts_mul_floor(self.parts, b)
    }
}

/// The share of `amount` that falls to `value` out of `total`: the ratio of
/// the two in parts per billion, rounded down, of the amount, rounded down.
pub open spec fn share(value: int, total: int, amount: int) -> int {
    parts_of(rational_parts(value, total), amount)
}

/// The share of `amount` that falls to `value` out of `total`.
pub fn share_of(value: u64, total: u64, amount: u64) -> (r: u64)
    ensures
        r as int == share(value as int, total as int, amount as int),
        r <= amount,
{
    let ratio = Perbill::from_rational_approximation(value, total);
    ratio.mul_floor(amount)
}

/// A share is no more than the exact proportion: the share times the total
/// is at most the value times the amount.
pub proof fn lemma_share_bound(value: int, total: int, amount: int)
    requires
        0 <= value,
        0 < total,
        0 <= amount,
    ensures
        0 <= share(value, total, amount) <= amount,
        share(value, total, amount) * total <= value * amount,
{
    lemma_rational_parts_bound(value, total);
    lemma_parts_of_bound(rational_parts(value, total), amount);
    let p = rational_parts(value, total);
    let s = share(value, total, amount);
    if value > total {
        assert(s == amount);
        assert(amount * total <= value * amount) by (nonlinear_arith)
            requires
                0 <= amount,
                0 < total < value,
        ;
    } else {
        assert(p * total <= value * 1_000_000_000) by (nonlinear_arith)
            requires
                p == (value * 1_000_000_000) / total,
                0 < total,
                0 <= value,
        ;
        if p >= 1_000_000_000 {
            assert(s == amount);
            assert(amount * total <= value * amount) by (nonlinear_arith)
                requires
                    p * total <= value * 1_000_000_000,
                    p >= 1_000_000_000,
                    0 <= amount,
                    0 < total,
            ;
        } else {
            assert(s * 1_000_000_000 <= amount * p) by (nonlinear_arith)
                requires
                    s == (amount * p) / 1_000_000_000,
                    0 <= amount,
                    0 <= p,
            ;
            assert(s * total <= value * amount) by (nonlinear_arith)
                requires
                    s * 1_000_000_000 <= amount * p,
                    p * total <= value * 1_000_000_000,
                    0 <= s,
                    0 <= amount,
                    0 <= p,
                    0 < total,
                    0 <= value,
            ;
        }
    }
}

/// Where the ratio of `value` to `total` is a whole number of billionths, the
/// share falls short of the exact proportion by less than one.
pub proof fn lemma_share_exact(value: int, total: int, amount: int)
    requires
        0 <= value <= total,
        0 < total,
        0 <= amount,
        (value * 1_000_000_000) % total == 0,
    ensures
        share(value, total, amount) == (value * amount) / total,
{
    let p = rational_parts(value, total);
    let s = share(value, total, amount);
    lemma_rational_parts_bound(value, total);
    assert(p * total == value * 1_000_000_000) by (nonlinear_arith)
        requires
            p == (value * 1_000_000_000) / total,
            (value * 1_000_000_000) % total == 0,
            0 < total,
    ;
    if p >= 1_000_000_000 {
        assert(value == total) by (nonlinear_arith)
            requires
                p * total == value * 1_000_000_000,
                p >= 1_000_000_000,
                value <= total,
                0 < total,
        ;
        assert((value * amount) / total == amount) by (nonlinear_arith)
            requires
                value == total,
                0 < total,
        ;
    } else {
        let q = (value * amount) / total;
        // s = floor(amount * p / 1e9) and q = floor(value * amount / total) with p / 1e9 = value / total
        assert(s * 1_000_000_000 <= amount * p < (s + 1) * 1_000_000_000) by (nonlinear_arith)
            requires
                s == (amount * p) / 1_000_000_000,
        ;
        assert(q * total <= value * amount < (q + 1) * total) by (nonlinear_arith)
            requires
                q == (value * amount) / total,
                0 < total,
        ;
        assert(s == q) by (nonlinear_arith)
            requires
                s * 1_000_000_000 <= amount * p < (s + 1) * 1_000_000_000,
                q * total <= value * amount < (q + 1) * total,
                p * total == value * 1_000_000_000,
                0 < total,
                0 <= amount,
                0 <= p,
        ;
    }
}

/// A ratio never exceeds one whole.
pub proof fn lemma_rational_parts_bound(p: int, q: int)
    requires
        0 <= p,
    ensures
        0 <= rational_parts(p, q) <= BILLION as int,
{
    if q > 0 && p <= q {
        assert(0 <= (p * 1_000_000_000) / q <= 1_000_000_000) by (nonlinear_arith)
            requires
                0 <= p <= q,
                q > 0,
        ;
    }
}

/// A share never exceeds what it is a share of.
pub proof fn lemma_parts_of_bound(parts: int, b: int)
    requires
        0 <= parts,
        0 <= b,
    ensures
        0 <= parts_of(parts, b) <= b,
{
    if parts < 1_000_000_000 {
        assert(0 <= (b * parts) / 1_000_000_000 <= b) by (nonlinear_arith)
            requires
                0 <= parts < 1_000_000_000,
                0 <= b,
        ;
    }
}

} // verus!
