//! A fixed-width unsigned integer of 160 bits, wide enough for a run of 44
//! decimal digits with a leading one in front of it.

use vstd::prelude::*;

verus! {

/// The bound of the type, `2^160`.
pub open spec fn bound() -> int {
    0x1_0000_0000_0000_0000_0000_0000_0000_0000_0000_0000int
}

/// The number that five limbs stand for, the first of them the least
/// significant.
pub open spec fn limbs_value(l: Seq<u32>) -> int {
    l[0] + l[1] * 0x1_0000_0000 + l[2] * 0x1_0000_0000_0000_0000int + l[3]
        * 0x1_0000_0000_0000_0000_0000_0000int + l[4] * 0x1_0000_0000_0000_0000_0000_0000_0000_0000int
}

/// An unsigned integer below `2^160`, held as five limbs of 32 bits, the
/// least significant first.
#[derive(Clone, Copy, Debug)]
pub struct U160 {
    limbs: [u32; 5],
}

impl View for U160 {
    type V = int;

    closed spec fn view(&self) -> int {
        limbs_value(self.limbs@)
    }
}

impl U160 {
    /// Every value of the type lies below `2^160`.
    pub proof fn lemma_bounded(self)
        ensures
            0 <= self@ < bound(),
    {
    }

    /// The number zero.
    pub fn zero() -> (r: Self)
        ensures
            r@ == 0,
    {
        U160 { limbs: [0, 0, 0, 0, 0] }
    }

    /// The number one.
    pub fn one() -> (r: Self)
        ensures
            r@ == 1,
    {
        U160 { limbs: [1, 0, 0, 0, 0] }
    }

    /// Tells whether the number is zero.
    pub fn is_zero(&self) -> (b: bool)
        ensures
            b == (self@ == 0),
    {
        self.limbs[0] == 0 && self.limbs[1] == 0 && self.limbs[2] == 0 && self.limbs[3] == 0
            && self.limbs[4] == 0
    }

    /// Replaces the number `x` by `x * m + a` modulo `2^160` and returns
    /// what was carried out of the top limb: the quotient of `x * m + a`
    /// by `2^160`.
    pub fn mul_small_add(&mut self, m: u32, a: u32) -> (carry: u32)
        ensures
            old(self)@ * m + a == final(self)@ + carry * bound(),
    {
        let l0 = self.limbs[0] as u64;
        let l1 = self.limbs[1] as u64;
        let l2 = self.limbs[2] as u64;
        let l3 = self.limbs[3] as u64;
        let l4 = self.limbs[4] as u64;
        let mm = m as u64;
        proof {
            lemma_limb_product(l0, mm);
            lemma_limb_product(l1, mm);
            lemma_limb_product(l2, mm);
            lemma_limb_product(l3, mm);
            lemma_limb_product(l4, mm);
        }
        let t0: u64 = l0 * mm + a as u64;
        let t1: u64 = l1 * mm + t0 / 0x1_0000_0000;
        let t2: u64 = l2 * mm + t1 / 0x1_0000_0000;
        let t3: u64 = l3 * mm + t2 / 0x1_0000_0000;
        let t4: u64 = l4 * mm + t3 / 0x1_0000_0000;
        self.limbs = [
            (t0 % 0x1_0000_0000) as u32,
            (t1 % 0x1_0000_0000) as u32,
            (t2 % 0x1_0000_0000) as u32,
            (t3 % 0x1_0000_0000) as u32,
            (t4 % 0x1_0000_0000) as u32,
        ];
        let carry = (t4 / 0x1_0000_0000) as u32;
        proof {
            let x = l0 + l1 * 0x1_0000_0000 + l2 * 0x1_0000_0000_0000_0000int + l3
                * 0x1_0000_0000_0000_0000_0000_0000int + l4
                * 0x1_0000_0000_0000_0000_0000_0000_0000_0000int;
            assert(x * mm == l0 * mm + (l1 * mm) * 0x1_0000_0000 + (l2 * mm)
                * 0x1_0000_0000_0000_0000int + (l3 * mm) * 0x1_0000_0000_0000_0000_0000_0000int + (l4
                * mm) * 0x1_0000_0000_0000_0000_0000_0000_0000_0000int) by (nonlinear_arith)
                requires
                    x == l0 + l1 * 0x1_0000_0000 + l2 * 0x1_0000_0000_0000_0000int + l3
                        * 0x1_0000_0000_0000_0000_0000_0000int + l4
                        * 0x1_0000_0000_0000_0000_0000_0000_0000_0000int,
            ;
        }
        carry
    }

    /// Replaces the number `x` by its quotient by `d` and returns the
    /// remainder.
    pub fn div_rem_small(&mut self, d: u32) -> (rem: u32)
        requires
            d > 0,
        ensures
            final(self)@ == old(self)@ / (d as int),
            rem == old(self)@ % (d as int),
    {
        let l0 = self.limbs[0] as u64;
        let l1 = self.limbs[1] as u64;
        let l2 = self.limbs[2] as u64;
        let l3 = self.limbs[3] as u64;
        let l4 = self.limbs[4] as u64;
        let dd = d as u64;
        let q4: u64 = l4 / dd;
        let r4: u64 = l4 % dd;
        proof {
            lemma_limb_division(0, l4, dd);
            lemma_limb_division(r4, l3, dd);
        }
        let t3: u64 = r4 * 0x1_0000_0000 + l3;
        let q3: u64 = t3 / dd;
        let r3: u64 = t3 % dd;
        proof {
            lemma_limb_division(r3, l2, dd);
        }
        let t2: u64 = r3 * 0x1_0000_0000 + l2;
        let q2: u64 = t2 / dd;
        let r2: u64 = t2 % dd;
        proof {
            lemma_limb_division(r2, l1, dd);
        }
        let t1: u64 = r2 * 0x1_0000_0000 + l1;
        let q1: u64 = t1 / dd;
        let r1: u64 = t1 % dd;
        proof {
            lemma_limb_division(r1, l0, dd);
        }
        let t0: u64 = r1 * 0x1_0000_0000 + l0;
        let q0: u64 = t0 / dd;
        let r0: u64 = t0 % dd;
        let ghost x = self@;
        self.limbs = [q0 as u32, q1 as u32, q2 as u32, q3 as u32, q4 as u32];
        proof {
            let q = q0 + q1 * 0x1_0000_0000 + q2 * 0x1_0000_0000_0000_0000int + q3
                * 0x1_0000_0000_0000_0000_0000_0000int + q4
                * 0x1_0000_0000_0000_0000_0000_0000_0000_0000int;
            assert(self@ == q);
            assert(q * dd == q0 * dd + (q1 * dd) * 0x1_0000_0000 + (q2 * dd)
                * 0x1_0000_0000_0000_0000int + (q3 * dd) * 0x1_0000_0000_0000_0000_0000_0000int + (q4
                * dd) * 0x1_0000_0000_0000_0000_0000_0000_0000_0000int) by (nonlinear_arith)
                requires
                    q == q0 + q1 * 0x1_0000_0000 + q2 * 0x1_0000_0000_0000_0000int + q3
                        * 0x1_0000_0000_0000_0000_0000_0000int + q4
                        * 0x1_0000_0000_0000_0000_0000_0000_0000_0000int,
            ;
            assert(x == q * dd + r0);
            vstd::arithmetic::div_mod::lemma_fundamental_div_mod_converse(
                x,
                dd as int,
                q as int,
                r0 as int,
            );
        }
        r0 as u32
    }
}

/// The product of a limb and a small factor, with a carry added, fits in
/// 64 bits.
proof fn lemma_limb_product(l: u64, m: u64)
    requires
        l < 0x1_0000_0000,
        m < 0x1_0000_0000,
    ensures
        l * m <= 0xFFFF_FFFE_0000_0001,
{
    assert(l * m <= 0xFFFF_FFFF * 0xFFFF_FFFF) by (nonlinear_arith)
        requires
            l <= 0xFFFF_FFFF,
            m <= 0xFFFF_FFFF,
    ;
}

/// One step of the long division: a remainder below the divisor, followed
/// by the next limb, gives a quotient of one limb.
proof fn lemma_limb_division(r: u64, l: u64, d: u64)
    requires
        r < d,
        0 < d < 0x1_0000_0000,
        l < 0x1_0000_0000,
    ensures
        r * 0x1_0000_0000 + l <= 0xFFFF_FFFF_FFFF_FFFF,
        (r * 0x1_0000_0000 + l) / (d as int) < 0x1_0000_0000,
        r * 0x1_0000_0000 + l == ((r * 0x1_0000_0000 + l) / (d as int)) * d + (r * 0x1_0000_0000
            + l) % (d as int),
        0 <= (r * 0x1_0000_0000 + l) % (d as int) < d,
{
    let t = r * 0x1_0000_0000 + l;
    vstd::arithmetic::div_mod::lemma_fundamental_div_mod(t as int, d as int);
    vstd::arithmetic::div_mod::lemma_mod_bound(t as int, d as int);
    let q = t / (d as int);
    assert(t < d * 0x1_0000_0000);
    assert(q < 0x1_0000_0000) by (nonlinear_arith)
        requires
            t < d * 0x1_0000_0000,
            t == d * q + t % (d as int),
            0 <= t % (d as int),
            d > 0,
    ;
    assert(d * q == q * d) by (nonlinear_arith);
}

} // verus!
