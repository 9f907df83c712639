//! Unsigned integers of 128 and 256 bits as arrays of 64-bit limbs, least
//! significant limb first, with the full product of two 128-bit values.
use crate::theory::{two_128, two_64};
use vstd::arithmetic::mul::*;
use vstd::prelude::*;

verus! {

/// An unsigned 128-bit integer in two limbs.
#[derive(Debug, Clone, Copy, PartialEq, Eq)]
pub struct U128(pub [u64; 2]);

/// An unsigned 256-bit integer in four limbs.
#[derive(Debug, Clone, Copy, PartialEq, Eq)]
pub struct U256(pub [u64; 4]);

/// The lower and the higher half of a double limb.
fn split(x: u128) -> (r: (u64, u64))
    ensures
        x == r.0 + r.1 * two_64(),
{
    let low = x % 0x1_0000_0000_0000_0000;
    let high = x / 0x1_0000_0000_0000_0000;
    (low as u64, high as u64)
}

impl U128 {
    /// The integer that the limbs stand for.
    pub open spec fn value(&self) -> int {
        self.0[0] + self.0[1] * two_64()
    }

    /// The limbs of a `u128`.
    pub fn from_u128(x: u128) -> (r: Self)
        ensures
            r.value() == x,
    {
        let (low, high) = split(x);
        U128([low, high])
    }

    /// Multiplies two 128-bit integers to the full 256-bit product. The
    /// product cannot overflow.
    pub fn full_mul_u128(self, other: u128) -> (r: U256)
        ensures
            r.value() == self.value() * other,
    {
        let o_w = Self::from_u128(other);
        let a0 = self.0[0] as u128;
        let a1 = self.0[1] as u128;
        let b0 = o_w.0[0] as u128;
        let b1 = o_w.0[1] as u128;
        proof {
            lemma_limb_product(a0, b0, 0, 0);
        }
        let (r0, c0) = split(a0 * b0);
        proof {
            lemma_limb_product(a0, b1, c0 as u128, 0);
        }
        let (t1, t2) = split(a0 * b1 + c0 as u128);
        proof {
            lemma_limb_product(a1, b0, t1 as u128, 0);
        }
        let (r1, c1) = split(a1 * b0 + t1 as u128);
        proof {
            lemma_limb_product(a1, b1, t2 as u128, c1 as u128);
        }
        let (r2, r3) = split(a1 * b1 + t2 as u128 + c1 as u128);
        let r = U256([r0, r1, r2, r3]);
        proof {
            // collect the partial products by the weight of their limbs
            lemma_product_of_limbs(a0 as int, a1 as int, b0 as int, b1 as int, two_64());
            assert(two_128() == two_64() * two_64());
            assert(self.value() == a0 + a1 * two_64());
            assert(o_w.value() == b0 + b1 * two_64());
        }
        r
    }
}

/// The product of two values of two limbs each, by the weight of the partial
/// products.
proof fn lemma_product_of_limbs(a0: int, a1: int, b0: int, b1: int, w: int)
    ensures
        (a0 + a1 * w) * (b0 + b1 * w) == a0 * b0 + (a0 * b1) * w + (a1 * b0) * w + (a1 * b1) * (w
            * w),
{
    let y = b0 + b1 * w;
    lemma_mul_is_distributive_add_other_way(y, a0, a1 * w);
    lemma_mul_is_distributive_add(a0, b0, b1 * w);
    lemma_mul_is_distributive_add(a1 * w, b0, b1 * w);
    lemma_mul_is_associative(a0, b1, w);
    assert((a1 * w) * b0 == (a1 * b0) * w) by (nonlinear_arith);
    assert((a1 * w) * (b1 * w) == (a1 * b1) * (w * w)) by (nonlinear_arith);
}

/// A product of two limbs leaves room in a double limb for two more limbs.
proof fn lemma_limb_product(a: u128, b: u128, c: u128, d: u128)
    requires
        a <= u64::MAX,
        b <= u64::MAX,
        c <= u64::MAX,
        d <= u64::MAX,
    ensures
        a * b + c + d <= u128::MAX,
{
    assert(a * b <= 0xffff_ffff_ffff_ffff * 0xffff_ffff_ffff_ffff) by (nonlinear_arith)
        requires
            0 <= a <= 0xffff_ffff_ffff_ffff,
            0 <= b <= 0xffff_ffff_ffff_ffff,
    ;
}

impl U256 {
    /// The integer that the limbs stand for.
    pub open spec fn value(&self) -> int {
        self.0[0] + self.0[1] * two_64() + self.0[2] * two_128() + self.0[3] * (two_128()
            * two_64())
    }

    /// The higher 128 bits.
    pub fn high_u128(&self) -> (r: u128)
        ensures
            r == self.value() / two_128(),
            r == self.0[2] + self.0[3] * two_64(),
    {
        let high = self.0[3];
        let low = self.0[2];
        assert(((high as u128) << 64) == high * 0x1_0000_0000_0000_0000) by (bit_vector);
        let r = ((high as u128) << 64) + low as u128;
        proof {
            let below = self.0[0] + self.0[1] * two_64();
            assert(self.value() == two_128() * r + below) by (nonlinear_arith)
                requires
                    self.value() == below + self.0[2] * two_128() + self.0[3] * (two_128()
                        * two_64()),
                    r == self.0[2] + self.0[3] * two_64(),
            ;
            vstd::arithmetic::div_mod::lemma_fundamental_div_mod_converse(
                self.value(),
                two_128(),
                r as int,
                below,
            );
        }
        r
    }
}

} // verus!
