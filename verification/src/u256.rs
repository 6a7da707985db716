//! Unsigned 256-bit integers with total ordering, used for proof-of-work
//! targets and hash comparison, plus the wider helpers that difficulty
//! retargeting needs.
use vstd::prelude::*;

verus! {

/// `2^64`, the weight of one limb.
pub open spec fn p64() -> int {
    0x1_0000_0000_0000_0000
}

/// `2^128`.
pub open spec fn p128() -> int {
    p64() * p64()
}

/// `2^192`.
pub open spec fn p192() -> int {
    p128() * p64()
}

/// `2^256`, one more than the largest `U256` value.
pub open spec fn p256() -> int {
    p192() * p64()
}

/// An unsigned 256-bit integer, four 64-bit limbs, least significant first.
#[derive(Clone, Copy, Debug, PartialEq, Eq, Structural)]
pub struct U256 {
    pub l0: u64,
    pub l1: u64,
    pub l2: u64,
    pub l3: u64,
}

impl U256 {
    /// The mathematical value of this integer.
    pub open spec fn val(self) -> int {
        self.l0 as int + 0x1_0000_0000_0000_0000
            * (self.l1 as int + 0x1_0000_0000_0000_0000
                * (self.l2 as int + 0x1_0000_0000_0000_0000 * self.l3 as int))
    }

    pub proof fn lemma_val_bounds(self)
        ensures
            0 <= self.val(),
            self.val() < p256(),
    {
        assert(p256() == 0x1_0000_0000_0000_0000 * (0x1_0000_0000_0000_0000
            * (0x1_0000_0000_0000_0000 * 0x1_0000_0000_0000_0000)));
    }

    pub fn zero() -> (r: U256)
        ensures
            r.val() == 0,
    {
        U256 { l0: 0, l1: 0, l2: 0, l3: 0 }
    }

    pub fn from_u64(x: u64) -> (r: U256)
        ensures
            r.val() == x,
    {
        U256 { l0: x, l1: 0, l2: 0, l3: 0 }
    }

    /// Whether `self <= other` in the integer order.
    pub fn le(&self, other: &U256) -> (r: bool)
        ensures
            r == (self.val() <= other.val()),
    {
        if self.l3 != other.l3 {
            self.l3 < other.l3
        } else if self.l2 != other.l2 {
            self.l2 < other.l2
        } else if self.l1 != other.l1 {
            self.l1 < other.l1
        } else {
            self.l0 <= other.l0
        }
    }

    /// Whether `self < other` in the integer order.
    pub fn lt(&self, other: &U256) -> (r: bool)
        ensures
            r == (self.val() < other.val()),
    {
        if self.l3 != other.l3 {
            self.l3 < other.l3
        } else if self.l2 != other.l2 {
            self.l2 < other.l2
        } else if self.l1 != other.l1 {
            self.l1 < other.l1
        } else {
            self.l0 < other.l0
        }
    }

    /// The smaller of the two integers.
    pub fn min_with(&self, other: &U256) -> (r: U256)
        ensures
            r.val() == if self.val() <= other.val() {
                self.val()
            } else {
                other.val()
            },
    {
        if self.le(other) {
            *self
        } else {
            *other
        }
    }
}

/// An unsigned 320-bit integer, five 64-bit limbs, least significant first.
/// Wide intermediate for difficulty retargeting: a 256-bit target times a
/// 64-bit factor fits here.
#[derive(Clone, Copy, Debug, PartialEq, Eq, Structural)]
pub struct W5 {
    pub w0: u64,
    pub w1: u64,
    pub w2: u64,
    pub w3: u64,
    pub w4: u64,
}

impl W5 {
    /// The mathematical value of this integer.
    pub open spec fn val(self) -> int {
        self.w0 as int + 0x1_0000_0000_0000_0000
            * (self.w1 as int + 0x1_0000_0000_0000_0000
                * (self.w2 as int + 0x1_0000_0000_0000_0000
                    * (self.w3 as int + 0x1_0000_0000_0000_0000 * self.w4 as int)))
    }

    pub fn from_u256(a: &U256) -> (r: W5)
        ensures
            r.val() == a.val(),
    {
        W5 { w0: a.l0, w1: a.l1, w2: a.l2, w3: a.l3, w4: 0 }
    }

    /// Whether `self <= other` in the integer order.
    pub fn le(&self, other: &W5) -> (r: bool)
        ensures
            r == (self.val() <= other.val()),
    {
        if self.w4 != other.w4 {
            self.w4 < other.w4
        } else if self.w3 != other.w3 {
            self.w3 < other.w3
        } else if self.w2 != other.w2 {
            self.w2 < other.w2
        } else if self.w1 != other.w1 {
            self.w1 < other.w1
        } else {
            self.w0 <= other.w0
        }
    }

    /// Whether `self < other` in the integer order.
    pub fn lt(&self, other: &W5) -> (r: bool)
        ensures
            r == (self.val() < other.val()),
    {
        !other.le(self)
    }

    /// The low 256 bits, exact when the value fits.
    pub fn to_u256(&self) -> (r: U256)
        requires
            self.val() < p256(),
        ensures
            r.val() == self.val(),
    {
        proof {
            assert(p256() == 0x1_0000_0000_0000_0000 * (0x1_0000_0000_0000_0000
                * (0x1_0000_0000_0000_0000 * 0x1_0000_0000_0000_0000)));
        }
        U256 { l0: self.w0, l1: self.w1, l2: self.w2, l3: self.w3 }
    }
}

/// One limb of a schoolbook multiplication: `a * m` plus the incoming
/// carry, split into a low limb and an outgoing carry.
fn mul_step(a: u64, m: u64, carry: u64) -> (r: (u64, u64))
    ensures
        r.0 as int + 0x1_0000_0000_0000_0000 * r.1 as int
            == a as int * m as int + carry as int,
{
    proof {
        assert(a as int * m as int <= 0xFFFF_FFFF_FFFF_FFFF * 0xFFFF_FFFF_FFFF_FFFF)
            by (nonlinear_arith)
            requires
                a <= 0xFFFF_FFFF_FFFF_FFFFu64,
                m <= 0xFFFF_FFFF_FFFF_FFFFu64,
        ;
    }
    let p: u128 = (a as u128) * (m as u128) + (carry as u128);
    let lo: u64 = (p % 0x1_0000_0000_0000_0000u128) as u64;
    let hi: u64 = (p / 0x1_0000_0000_0000_0000u128) as u64;
    (lo, hi)
}

/// The product of a 256-bit integer and a 64-bit factor, exact in 320 bits.
pub fn mul_u256_u64(a: &U256, m: u64) -> (r: W5)
    ensures
        r.val() == a.val() * m as int,
{
    let (w0, c0) = mul_step(a.l0, m, 0);
    let (w1, c1) = mul_step(a.l1, m, c0);
    let (w2, c2) = mul_step(a.l2, m, c1);
    let (w3, c3) = mul_step(a.l3, m, c2);
    let r = W5 { w0, w1, w2, w3, w4: c3 };
    proof {
        let b: int = 0x1_0000_0000_0000_0000;
        let mi: int = m as int;
        assert(a.val() * mi == a.l0 as int * mi + b * (a.l1 as int * mi + b * (a.l2 as int
            * mi + b * (a.l3 as int * mi)))) by (nonlinear_arith)
            requires
                a.val() == a.l0 as int + b * (a.l1 as int + b * (a.l2 as int + b
                    * a.l3 as int)),
                b == 0x1_0000_0000_0000_0000,
        ;
    }
    r
}

/// One limb of a schoolbook division: the running remainder joined with the
/// next limb, divided by `d`.
fn div_step(rem: u64, limb: u64, d: u64) -> (r: (u64, u64))
    requires
        1 <= d,
        rem < d,
    ensures
        rem as int * 0x1_0000_0000_0000_0000 + limb as int == d as int * r.0 as int
            + r.1 as int,
        r.1 < d,
{
    proof {
        assert((rem as int) * 0x1_0000_0000_0000_0000 + (limb as int) < (d as int)
            * 0x1_0000_0000_0000_0000) by (nonlinear_arith)
            requires
                rem < d,
                limb < 0x1_0000_0000_0000_0000u128,
        ;
    }
    let cur: u128 = (rem as u128) * 0x1_0000_0000_0000_0000u128 + (limb as u128);
    let q: u128 = cur / (d as u128);
    let r2: u128 = cur % (d as u128);
    proof {
        vstd::arithmetic::div_mod::lemma_fundamental_div_mod(cur as int, d as int);
        assert(q < 0x1_0000_0000_0000_0000) by (nonlinear_arith)
            requires
                q == cur as int / d as int,
                (cur as int) < (d as int) * 0x1_0000_0000_0000_0000,
                1 <= d as int,
        ;
    }
    (q as u64, r2 as u64)
}

/// The quotient of a 320-bit integer by a 64-bit divisor, truncated toward
/// zero.
pub fn div_w5_u64(a: &W5, d: u64) -> (r: W5)
    requires
        1 <= d,
    ensures
        r.val() == a.val() / d as int,
{
    let (q4, r4) = div_step(0, a.w4, d);
    let (q3, r3) = div_step(r4, a.w3, d);
    let (q2, r2) = div_step(r3, a.w2, d);
    let (q1, r1) = div_step(r2, a.w1, d);
    let (q0, r0) = div_step(r1, a.w0, d);
    let r = W5 { w0: q0, w1: q1, w2: q2, w3: q3, w4: q4 };
    proof {
        let b: int = 0x1_0000_0000_0000_0000;
        let di: int = d as int;
        let v3: int = a.w3 as int + b * a.w4 as int;
        let p3: int = q3 as int + b * q4 as int;
        assert(v3 == di * p3 + r3 as int) by (nonlinear_arith)
            requires
                a.w4 as int == di * q4 as int + r4 as int,
                r4 as int * b + a.w3 as int == di * q3 as int + r3 as int,
                v3 == a.w3 as int + b * a.w4 as int,
                p3 == q3 as int + b * q4 as int,
        ;
        let v2: int = a.w2 as int + b * v3;
        let p2: int = q2 as int + b * p3;
        assert(v2 == di * p2 + r2 as int) by (nonlinear_arith)
            requires
                v3 == di * p3 + r3 as int,
                r3 as int * b + a.w2 as int == di * q2 as int + r2 as int,
                v2 == a.w2 as int + b * v3,
                p2 == q2 as int + b * p3,
        ;
        let v1: int = a.w1 as int + b * v2;
        let p1: int = q1 as int + b * p2;
        assert(v1 == di * p1 + r1 as int) by (nonlinear_arith)
            requires
                v2 == di * p2 + r2 as int,
                r2 as int * b + a.w1 as int == di * q1 as int + r1 as int,
                v1 == a.w1 as int + b * v2,
                p1 == q1 as int + b * p2,
        ;
        let v0: int = a.w0 as int + b * v1;
        let p0: int = q0 as int + b * p1;
        assert(v0 == di * p0 + r0 as int) by (nonlinear_arith)
            requires
                v1 == di * p1 + r1 as int,
                r1 as int * b + a.w0 as int == di * q0 as int + r0 as int,
                v0 == a.w0 as int + b * v1,
                p0 == q0 as int + b * p1,
        ;
        assert(v0 == a.val());
        assert(p0 == r.val());
        assert(di * p0 == p0 * di) by (nonlinear_arith);
        vstd::arithmetic::div_mod::lemma_fundamental_div_mod_converse(
            a.val(),
            di,
            r.val(),
            r0 as int,
        );
    }
    r
}

/// The easiest allowed proof-of-work target: the top 16 bits zero, all
/// other bits one, that is `2^240 - 1`.
pub open spec fn min_target_val() -> int {
    p192() * 0x1_0000_0000_0000 - 1
}

/// The easiest allowed proof-of-work target as a `U256`.
pub fn min_target() -> (r: U256)
    ensures
        r.val() == min_target_val(),
{
    U256 {
        l0: 0xFFFF_FFFF_FFFF_FFFF,
        l1: 0xFFFF_FFFF_FFFF_FFFF,
        l2: 0xFFFF_FFFF_FFFF_FFFF,
        l3: 0x0000_FFFF_FFFF_FFFF,
    }
}

} // verus!
