//! Exact non-negative rational numbers.
//!
//! Vector distances, similarity scores and the matching threshold are all
//! quotients of non-negative integers. They are kept as exact
//! numerator/denominator pairs, and compared by cross-multiplication, so
//! that every comparison the clustering policy makes is exact.

use vstd::prelude::*;
use vstd::arithmetic::div_mod::lemma_fundamental_div_mod;

verus! {

/// One past the largest value of a `u64`; the base used to split a
/// 192-bit product into limbs.
pub const LIMB: u128 = 0x1_0000_0000_0000_0000;

/// A non-negative rational number `num / den`.
#[derive(Clone, Copy, PartialEq, Eq, Structural, Debug)]
pub struct Ratio {
    pub num: u128,
    pub den: u64,
}

/// `a <= b` as rational numbers, stated by cross-multiplication so that no
/// division appears. Meaningful when both denominators are positive.
pub open spec fn ratio_le(a: Ratio, b: Ratio) -> bool {
    a.num * b.den <= b.num * a.den
}

/// `a < b` as rational numbers, by cross-multiplication.
pub open spec fn ratio_lt(a: Ratio, b: Ratio) -> bool {
    a.num * b.den < b.num * a.den
}

impl Ratio {
    /// The quotient is meaningful only with a positive denominator.
    pub open spec fn wf(self) -> bool {
        self.den > 0
    }

    pub fn new(num: u128, den: u64) -> (r: Ratio)
        requires
            den > 0,
        ensures
            r == (Ratio { num, den }),
            r.wf(),
    {
        Ratio { num, den }
    }

    /// Exact comparison `self <= other` of the two quotients.
    pub fn le(&self, other: &Ratio) -> (r: bool)
        ensures
            r == ratio_le(*self, *other),
    {
        let (h1, l1) = mul_wide(self.num, other.den);
        let (h2, l2) = mul_wide(other.num, self.den);
        proof {
            lemma_limbs_order(h1 as int, l1 as int, h2 as int, l2 as int);
        }
        if h1 < h2 {
            true
        } else if h1 == h2 {
            l1 <= l2
        } else {
            false
        }
    }

    /// Exact comparison `self < other` of the two quotients.
    pub fn lt(&self, other: &Ratio) -> (r: bool)
        ensures
            r == ratio_lt(*self, *other),
    {
        !other.le(self)
    }
}

/// A strictly smaller quotient stays strictly below anything at least as
/// large as the middle one.
pub proof fn lemma_ratio_lt_le_trans(a: Ratio, b: Ratio, c: Ratio)
    requires
        a.wf(),
        b.wf(),
        c.wf(),
        ratio_lt(a, b),
        ratio_le(b, c),
    ensures
        ratio_lt(a, c),
{
    let an = a.num as int;
    let ad = a.den as int;
    let bn = b.num as int;
    let bd = b.den as int;
    let cn = c.num as int;
    let cd = c.den as int;
    assert(an * cd < cn * ad) by (nonlinear_arith)
        requires
            an * bd < bn * ad,
            bn * cd <= cn * bd,
            ad > 0,
            bd > 0,
            cd > 0,
            an >= 0,
            bn >= 0,
            cn >= 0,
    ;
}

/// The full 192-bit product `n * d`, split into limbs `r.0 * LIMB + r.1`.
fn mul_wide(n: u128, d: u64) -> (r: (u128, u64))
    ensures
        (r.0 as int) * (LIMB as int) + (r.1 as int) == (n as int) * (d as int),
{
    let hi = n / LIMB;
    let lo = n % LIMB;
    proof {
        lemma_fundamental_div_mod(n as int, LIMB as int);
        assert(hi < LIMB) by (nonlinear_arith)
            requires
                (LIMB as int) * (hi as int) + (lo as int) == n as int,
                0 <= lo as int,
                (n as int) < (LIMB as int) * (LIMB as int),
                hi >= 0,
        ;
        assert((hi as int) * (d as int) < (LIMB as int) * (LIMB as int)) by (nonlinear_arith)
            requires
                0 <= hi as int,
                (hi as int) < (LIMB as int),
                0 <= d as int,
                (d as int) < (LIMB as int),
        ;
        assert((lo as int) * (d as int) < (LIMB as int) * (LIMB as int)) by (nonlinear_arith)
            requires
                0 <= lo as int,
                (lo as int) < (LIMB as int),
                0 <= d as int,
                (d as int) < (LIMB as int),
        ;
    }
    let p1 = hi * (d as u128);
    let p2 = lo * (d as u128);
    let carry = p2 / LIMB;
    let rem = p2 % LIMB;
    proof {
        lemma_fundamental_div_mod(p2 as int, LIMB as int);
        assert(carry < LIMB) by (nonlinear_arith)
            requires
                (LIMB as int) * (carry as int) + (rem as int) == p2 as int,
                0 <= rem as int,
                (p2 as int) < (LIMB as int) * (LIMB as int),
                carry >= 0,
        ;
        assert(p1 as int <= ((LIMB as int) - 1) * ((LIMB as int) - 1)) by (nonlinear_arith)
            requires
                p1 as int == (hi as int) * (d as int),
                0 <= hi as int,
                (hi as int) <= (LIMB as int) - 1,
                0 <= d as int,
                (d as int) <= (LIMB as int) - 1,
        ;
        assert((p1 as int) + (carry as int) < 0x1_0000_0000_0000_0000_0000_0000_0000_0000)
            by (nonlinear_arith)
            requires
                p1 as int <= ((LIMB as int) - 1) * ((LIMB as int) - 1),
                carry as int <= (LIMB as int) - 1,
        ;
    }
    let h = p1 + carry;
    proof {
        assert((h as int) * (LIMB as int) + (rem as int) == (n as int) * (d as int))
            by (nonlinear_arith)
            requires
                n as int == (LIMB as int) * (hi as int) + (lo as int),
                p1 as int == (hi as int) * (d as int),
                p2 as int == (lo as int) * (d as int),
                p2 as int == (LIMB as int) * (carry as int) + (rem as int),
                h as int == (p1 as int) + (carry as int),
        ;
    }
    (h, rem as u64)
}

/// Two limb pairs with low limbs below `LIMB` compare as the values they
/// stand for.
proof fn lemma_limbs_order(h1: int, l1: int, h2: int, l2: int)
    requires
        0 <= h1,
        0 <= h2,
        0 <= l1,
        l1 < LIMB as int,
        0 <= l2,
        l2 < LIMB as int,
    ensures
        (h1 * (LIMB as int) + l1 <= h2 * (LIMB as int) + l2) <==> (h1 < h2 || (h1 == h2 && l1
            <= l2)),
{
    assert((h1 * (LIMB as int) + l1 <= h2 * (LIMB as int) + l2) <==> (h1 < h2 || (h1 == h2 && l1
        <= l2))) by (nonlinear_arith)
        requires
            0 <= h1,
            0 <= h2,
            0 <= l1,
            l1 < LIMB as int,
            0 <= l2,
            l2 < LIMB as int,
    ;
}

} // verus!
