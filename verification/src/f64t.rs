//! GF(3^64) as GF(3)[x] / (x^64 + x^3 + 2), stored bit-sliced: bit `i` of `msb` and of
//! `lsb` together hold the coefficient of `x^i`.
use vstd::prelude::*;
use vstd::arithmetic::power::*;
use vstd::arithmetic::div_mod::*;
use crate::f3::F3;
use crate::bytes::{le_value, le_u64, u64_to_le, take8, concat8};
use crate::gf3poly::{reduced, pzero, pone, padd, pneg, psub, pscale, xtimes, horner, pmul, ppow, plincomb};

verus! {

/// A field element of GF(3^64); the coefficient of `x^i` is `2 * msb_i + lsb_i`.
#[derive(Clone, Copy, Debug, PartialEq, Eq, Structural, Hash)]
pub struct F64t {
    /// Most significant bits of the coefficients.
    pub msb: u64,
    /// Least significant bits of the coefficients.
    pub lsb: u64,
}

/// Bit `i` of `w`.
pub open spec fn bit64(w: u64, i: int) -> nat {
    ((w >> (i as u64)) & 1u64) as nat
}

/// `x^64` is replaced by `2x^3 + 1`.
pub open spec fn red64() -> Seq<nat> {
    Seq::new(64, |i: int| if i == 0 { 1nat } else if i == 3 { 2nat } else { 0nat })
}

impl F64t {
    /// No coefficient has both bits set.
    pub open spec fn wf(self) -> bool {
        self.msb & self.lsb == 0
    }

    /// The coefficient of `x^i`.
    pub open spec fn coef(self, i: int) -> nat {
        2 * bit64(self.msb, i) + bit64(self.lsb, i)
    }

    /// The 64 coefficients, constant term first.
    pub open spec fn poly(self) -> Seq<nat> {
        Seq::new(64, |i: int| self.coef(i))
    }
}

proof fn lemma_add_bits(am: u64, al: u64, bm: u64, bl: u64, m: u64, l: u64, i: u64)
    by (bit_vector)
    requires
        i < 64,
        am & al == 0,
        bm & bl == 0,
        m == (al | bl) ^ ((al | bm) ^ (am | bl)),
        l == (am | bm) ^ ((al | bm) ^ (am | bl)),
    ensures
        m & l == 0,
        2 * ((m >> i) & 1) + ((l >> i) & 1) == (2 * ((am >> i) & 1) + ((al >> i) & 1) + 2 * ((bm
            >> i) & 1) + ((bl >> i) & 1)) % 3,
{
}

proof fn lemma_wf_bits(m: u64, l: u64, i: u64)
    by (bit_vector)
    requires
        i < 64,
        m & l == 0,
    ensures
        2 * ((m >> i) & 1) + ((l >> i) & 1) < 3,
        ((m >> i) & 1) <= 1,
        ((l >> i) & 1) <= 1,
{
}

proof fn lemma_shl_bits(m: u64, l: u64, i: u64)
    by (bit_vector)
    requires
        i < 64,
        m & l == 0,
    ensures
        (m << 1) & (l << 1) == 0,
        i == 0 ==> ((m << 1) >> i) & 1 == 0,
        i > 0 ==> ((m << 1) >> i) & 1 == (m >> ((i - 1) as u64)) & 1,
        (m >> 63) == (m >> 63u64) & 1,
{
}

proof fn lemma_swap_bits(m: u64, l: u64)
    by (bit_vector)
    requires
        m & l == 0,
    ensures
        l & m == 0,
{
}

proof fn lemma_zero_bits(i: u64)
    by (bit_vector)
    requires
        i < 64,
    ensures
        (0u64 >> i) & 1 == 0,
        0u64 & 0u64 == 0,
        (1u64 >> i) & 1 == (if i == 0 { 1u64 } else { 0u64 }),
        (2u64 >> i) & 1 == (if i == 1 { 1u64 } else { 0u64 }),
        (8u64 >> i) & 1 == (if i == 3 { 1u64 } else { 0u64 }),
        0u64 & 1u64 == 0,
        0u64 & 2u64 == 0,
        1u64 & 8u64 == 0,
{
}

proof fn lemma_and_mask_bits(w: u64, i: u64)
    ensures
        (w & 0u64) == 0,
        (0u64 & w) == 0,
        (w & 0xffffffffffffffffu64) == w,
{
    assert((w & 0u64) == 0 && (0u64 & w) == 0 && (w & 0xffffffffffffffffu64) == w) by (bit_vector);
}

/// One coefficient of a product with a constant `2 cm + cl` of GF(3), built from the
/// bits `rm`, `rl` of the coefficient as in `F64t::scale` and `F82t::scale`.
pub(crate) proof fn lemma_scale_coef(cm: nat, cl: nat, rm: nat, rl: nat)
    requires
        (cm == 0 && cl <= 1) || (cm == 1 && cl == 0),
        rm <= 1,
        rl <= 1,
        rm + rl <= 1,
    ensures
        (2 * (if cm == 1 { rl } else { 0 }) + (if cl == 1 { rl } else { 0 }) + (2 * (if cl == 1 { rm } else { 0 }) + (if cm == 1 { rm } else { 0 }))) % 3
            == ((2 * cm + cl) * (2 * rm + rl)) % 3,
{
    let lhs = 2 * (if cm == 1 { rl } else { 0 }) + (if cl == 1 { rl } else { 0 }) + (2 * (if cl == 1 { rm } else { 0 }) + (if cm == 1 { rm } else { 0 }));
    if cm == 0 && cl == 0 {
        assert((2 * cm + cl) * (2 * rm + rl) == 0) by (nonlinear_arith)
            requires
                cm == 0 && cl == 0,
        ;
    } else if cm == 0 {
        assert((2 * cm + cl) * (2 * rm + rl) == 2 * rm + rl) by (nonlinear_arith)
            requires
                cm == 0 && cl == 1,
        ;
    } else {
        assert((2 * cm + cl) * (2 * rm + rl) == 4 * rm + 2 * rl) by (nonlinear_arith)
            requires
                cm == 1 && cl == 0,
        ;
        assert(lhs == 2 * rl + rm);
        assert((4 * rm + 2 * rl) % 3 == (2 * rl + rm) % 3) by {
            if rm == 1 {
                assert(rl == 0);
            } else if rl == 1 {
                assert(rm == 0);
            }
        }
    }
}

/// A well-formed element has its coefficients in `0..3`.
pub proof fn lemma_f64t_reduced(x: F64t)
    requires
        x.wf(),
    ensures
        reduced(x.poly()),
        x.poly().len() == 64,
{
    assert forall|i: int| 0 <= i < 64 implies #[trigger] x.poly()[i] < 3 by {
        lemma_wf_bits(x.msb, x.lsb, i as u64);
    }
}

impl F64t {
    /// Zero.
    pub fn zero() -> (r: F64t)
        ensures
            r.wf(),
            r.poly() == pzero(64),
    {
        let r = F64t { msb: 0, lsb: 0 };
        proof {
            assert forall|i: int| 0 <= i < 64 implies #[trigger] r.poly()[i] == pzero(64)[i] by {
                lemma_zero_bits(i as u64);
            }
            assert(r.poly() =~= pzero(64));
            lemma_zero_bits(0);
        }
        r
    }

    /// One.
    pub fn one() -> (r: F64t)
        ensures
            r.wf(),
            r.poly() == pone(64),
    {
        let r = F64t { msb: 0, lsb: 1 };
        assert forall|i: int| 0 <= i < 64 implies #[trigger] r.poly()[i] == pone(64)[i] by {
            let iu = i as u64;
            lemma_zero_bits(iu);
        }
        assert(r.poly() =~= pone(64));
        proof {
            lemma_zero_bits(0);
        }
        r
    }

    /// The generator `x` of the multiplicative group.
    pub fn generator() -> (r: F64t)
        ensures
            r.wf(),
            forall|i: int| 0 <= i < 64 ==> r.poly()[i] == (if i == 1 { 1nat } else { 0nat }),
    {
        let r = F64t { msb: 0, lsb: 2 };
        assert forall|i: int| 0 <= i < 64 implies r.poly()[i] == (if i == 1 { 1nat } else { 0nat }) by {
            let iu = i as u64;
            lemma_zero_bits(iu);
        }
        proof {
            lemma_zero_bits(0);
        }
        r
    }

    /// Constant-time equality: 1 when the elements are equal, 0 otherwise.
    pub fn ct_eq(&self, other: &F64t) -> (r: u8)
        ensures
            r == (if *self == *other { 1u8 } else { 0u8 }),
    {
        crate::ct::choice_and(crate::ct::ct_eq_u64(self.msb, other.msb), crate::ct::ct_eq_u64(self.lsb, other.lsb))
    }

    /// Constant-time selection: `a` when `choice` is 0, `b` when it is 1.
    pub fn conditional_select(a: &F64t, b: &F64t, choice: u8) -> (r: F64t)
        requires
            choice <= 1,
        ensures
            r == (if choice == 0 { *a } else { *b }),
    {
        F64t { msb: crate::ct::conditional_select_u64(a.msb, b.msb, choice), lsb: crate::ct::conditional_select_u64(a.lsb, b.lsb, choice) }
    }

    /// Field addition: coefficient-wise addition modulo three.
    pub fn add_assign(&mut self, rhs: &F64t)
        requires
            old(self).wf(),
            rhs.wf(),
        ensures
            final(self).wf(),
            final(self).poly() == padd(old(self).poly(), rhs.poly()),
    {
        let ghost a = *self;
        let t = (self.lsb | rhs.msb) ^ (self.msb | rhs.lsb);
        let msb = (self.lsb | rhs.lsb) ^ t;
        let lsb = (self.msb | rhs.msb) ^ t;
        self.msb = msb;
        self.lsb = lsb;
        proof {
            lemma_add_bits(a.msb, a.lsb, rhs.msb, rhs.lsb, msb, lsb, 0);
            assert forall|i: int| 0 <= i < 64 implies #[trigger] self.poly()[i] == padd(
                a.poly(),
                rhs.poly(),
            )[i] by {
                lemma_add_bits(a.msb, a.lsb, rhs.msb, rhs.lsb, msb, lsb, i as u64);
            }
            assert(self.poly() =~= padd(a.poly(), rhs.poly()));
        }
    }

    /// The additive inverse: the bits of each coefficient swap.
    pub fn neg(&self) -> (r: F64t)
        requires
            self.wf(),
        ensures
            r.wf(),
            r.poly() == pneg(self.poly()),
    {
        let r = F64t { msb: self.lsb, lsb: self.msb };
        proof {
            lemma_swap_bits(self.msb, self.lsb);
            assert forall|i: int| 0 <= i < 64 implies #[trigger] r.poly()[i] == pneg(self.poly())[i] by {
                lemma_wf_bits(self.msb, self.lsb, i as u64);
            }
            assert(r.poly() =~= pneg(self.poly()));
        }
        r
    }

    /// Field subtraction: adds the additive inverse.
    pub fn sub_assign(&mut self, rhs: &F64t)
        requires
            old(self).wf(),
            rhs.wf(),
        ensures
            final(self).wf(),
            final(self).poly() == psub(old(self).poly(), rhs.poly()),
    {
        let neg = rhs.neg();
        self.add_assign(&neg);
    }

    /// The sum of two elements.
    pub fn add(&self, rhs: &F64t) -> (r: F64t)
        requires
            self.wf(),
            rhs.wf(),
        ensures
            r.wf(),
            r.poly() == padd(self.poly(), rhs.poly()),
    {
        let mut r = *self;
        r.add_assign(rhs);
        r
    }

    /// The difference of two elements.
    pub fn sub(&self, rhs: &F64t) -> (r: F64t)
        requires
            self.wf(),
            rhs.wf(),
        ensures
            r.wf(),
            r.poly() == psub(self.poly(), rhs.poly()),
    {
        let mut r = *self;
        r.sub_assign(rhs);
        r
    }

    /// Multiplication by a constant of GF(3).
    pub fn scale(c: F3, rhs: &F64t) -> (r: F64t)
        requires
            c.wf(),
            rhs.wf(),
        ensures
            r.wf(),
            r.poly() == pscale(c.val(), rhs.poly()),
    {
        let msb_mask = 0u64.wrapping_sub(c.msb as u64);
        let lsb_mask = 0u64.wrapping_sub(c.lsb as u64);
        let a = F64t { msb: rhs.msb & lsb_mask, lsb: rhs.msb & msb_mask };
        let b = F64t { msb: rhs.lsb & msb_mask, lsb: rhs.lsb & lsb_mask };
        proof {
            lemma_and_mask_bits(rhs.msb, 0);
            lemma_and_mask_bits(rhs.lsb, 0);
            lemma_zero_bits(0);
            assert(a.wf() && b.wf()) by {
                lemma_and_mask_bits(rhs.msb, 0);
                lemma_and_mask_bits(rhs.lsb, 0);
            }
        }
        let r = b.add(&a);
        proof {
            assert forall|i: int| 0 <= i < 64 implies #[trigger] r.poly()[i] == pscale(
                c.val(),
                rhs.poly(),
            )[i] by {
                let iu = i as u64;
                lemma_zero_bits(iu);
                lemma_wf_bits(rhs.msb, rhs.lsb, iu);
                let rm = bit64(rhs.msb, i);
                let rl = bit64(rhs.lsb, i);
                assert(bit64(a.msb, i) == (if c.lsb == 1 { rm } else { 0 }));
                assert(bit64(a.lsb, i) == (if c.msb == 1 { rm } else { 0 }));
                assert(bit64(b.msb, i) == (if c.msb == 1 { rl } else { 0 }));
                assert(bit64(b.lsb, i) == (if c.lsb == 1 { rl } else { 0 }));
                lemma_scale_coef(c.msb as nat, c.lsb as nat, rm, rl);
            }
            assert(r.poly() =~= pscale(c.val(), rhs.poly()));
        }
        r
    }

    /// The embedding of GF(3) as the constant polynomials.
    pub fn from_f3(pf: F3) -> (r: F64t)
        requires
            pf.wf(),
        ensures
            r.wf(),
            r.poly()[0] == pf.val(),
            forall|i: int| 1 <= i < 64 ==> r.poly()[i] == 0,
    {
        let r = F64t { msb: pf.msb as u64, lsb: pf.lsb as u64 };
        proof {
            let m = pf.msb as u64;
            let l = pf.lsb as u64;
            assert(m & l == 0 && (m >> 0u64) & 1 == m && (l >> 0u64) & 1 == l) by (bit_vector)
                requires
                    (m == 0 && l <= 1) || (m == 1 && l == 0),
            ;
            assert forall|i: int| 1 <= i < 64 implies r.poly()[i] == 0 by {
                let iu = i as u64;
                assert((m >> iu) & 1 == 0 && (l >> iu) & 1 == 0) by (bit_vector)
                    requires
                        m <= 1,
                        l <= 1,
                        1 <= iu < 64,
                ;
            }
        }
        r
    }

    /// The coefficient of `x^i` as an element of GF(3).
    fn coef_f3(&self, i: u64) -> (r: F3)
        requires
            self.wf(),
            i < 64,
        ensures
            r.wf(),
            r.val() == self.poly()[i as int],
    {
        let m = ((self.msb >> i) & 1) as u8;
        let l = ((self.lsb >> i) & 1) as u8;
        proof {
            lemma_wf_bits(self.msb, self.lsb, i);
        }
        F3 { msb: m, lsb: l }
    }

    /// Multiplication by `x`: the coefficients move up one place and the coefficient
    /// falling off the top comes back as that multiple of `x^64 = 2x^3 + 1`.
    fn shift_left_reduce(x: F64t) -> (r: F64t)
        requires
            x.wf(),
        ensures
            r.wf(),
            r.poly() == xtimes(x.poly(), red64()),
    {
        let base = F64t { msb: 1, lsb: 8 };
        proof {
            lemma_zero_bits(0);
        }
        let msb = x.msb << 1;
        let lsb = x.lsb << 1;
        let mut reduced = F64t { msb, lsb };
        proof {
            lemma_shl_bits(x.msb, x.lsb, 0);
            lemma_wf_bits(x.msb, x.lsb, 63);
        }
        let ghost shifted = reduced;
        let ghost t = x.poly()[63];
        proof {
            lemma_swap_bits(x.msb, x.lsb);
            lemma_shl_bits(x.lsb, x.msb, 0);
            lemma_shl_bits(x.msb, x.lsb, 63);
            lemma_shl_bits(x.lsb, x.msb, 63);
            assert(t == 2 <==> x.msb >> 63 == 1);
            assert(t == 1 <==> x.lsb >> 63 == 1);
            assert forall|i: int| 0 <= i < 64 implies #[trigger] shifted.poly()[i] == (if i == 0 {
                0nat
            } else {
                x.poly()[i - 1]
            }) by {
                let iu = i as u64;
                lemma_shl_bits(x.msb, x.lsb, iu);
                lemma_shl_bits(x.lsb, x.msb, iu);
            }
            assert forall|i: int| 0 <= i < 64 implies #[trigger] base.poly()[i] == (if i == 0 {
                2nat
            } else if i == 3 {
                1nat
            } else {
                0nat
            }) by {
                let iu = i as u64;
                lemma_zero_bits(iu);
            }
        }
        if x.msb >> 63 == 1 {
            reduced.add_assign(&base);
        }
        if x.lsb >> 63 == 1 {
            reduced.sub_assign(&base);
        }
        proof {
            let xp = x.poly();
            assert forall|i: int| 0 <= i < 64 implies #[trigger] reduced.poly()[i] == xtimes(
                xp,
                red64(),
            )[i] by {
                let iu = i as u64;
                lemma_wf_bits(x.msb, x.lsb, iu);
                if i > 0 {
                    lemma_wf_bits(x.msb, x.lsb, (iu - 1) as u64);
                }
                let sv = shifted.poly()[i];
                assert(sv < 3);
                assert(xtimes(xp, red64())[i] == (sv + t * red64()[i]) % 3);
                if t == 0 {
                    assert(reduced == shifted);
                } else if t == 1 {
                    assert(reduced.poly() == psub(shifted.poly(), base.poly()));
                } else {
                    assert(reduced.poly() == padd(shifted.poly(), base.poly()));
                }
            }
            assert(reduced.poly() =~= xtimes(x.poly(), red64()));
        }
        reduced
    }

    /// Field multiplication, by Horner's rule over the coefficients of `rhs` from the top.
    pub fn mul_assign(&mut self, rhs: &F64t)
        requires
            old(self).wf(),
            rhs.wf(),
        ensures
            final(self).wf(),
            final(self).poly() == pmul(old(self).poly(), rhs.poly(), red64()),
    {
        let a = *self;
        let mut acc = F64t::zero();
        let mut i: u64 = 64;
        while i > 0
            invariant
                i <= 64,
                a.wf(),
                rhs.wf(),
                acc.wf(),
                acc.poly() == horner(a.poly(), rhs.poly(), red64(), i as nat),
            decreases i,
        {
            i = i - 1;
            acc = F64t::shift_left_reduce(acc);
            let c = rhs.coef_f3(i);
            let term = F64t::scale(c, &a);
            acc.add_assign(&term);
        }
        *self = acc;
    }

    /// The product of two elements.
    pub fn mul(&self, rhs: &F64t) -> (r: F64t)
        requires
            self.wf(),
            rhs.wf(),
        ensures
            r.wf(),
            r.poly() == pmul(self.poly(), rhs.poly(), red64()),
    {
        let mut r = *self;
        r.mul_assign(rhs);
        r
    }

    /// `self^e`, by square-and-multiply over the bits of `e`.
    pub fn pow_var_time(&self, e: u128) -> (r: F64t)
        requires
            self.wf(),
        ensures
            r.wf(),
            r.poly() == ppow(self.poly(), e as nat, red64()),
        decreases e,
    {
        if e == 0 {
            F64t::one()
        } else {
            let h = self.pow_var_time(e / 2);
            let sq = h.mul(&h);
            if e % 2 == 0 {
                sq
            } else {
                sq.mul(self)
            }
        }
    }

    /// `self^e`.
    pub fn pow(&self, e: u128) -> (r: F64t)
        requires
            self.wf(),
        ensures
            r.wf(),
            r.poly() == ppow(self.poly(), e as nat, red64()),
    {
        self.pow_var_time(e)
    }

    /// The multiplicative inverse of a non-zero element, computed as `self^(3^64 - 2)`.
    pub fn inverse(&self) -> (r: F64t)
        requires
            self.wf(),
            !(self.msb == 0 && self.lsb == 0),
        ensures
            r.wf(),
            r.poly() == ppow(self.poly(), 3433683820292512484657849089279nat, red64()),
    {
        self.pow_var_time(3433683820292512484657849089279u128)
    }

    /// The bits of the encoding, two per coefficient: bit `2i` is the low bit and bit
    /// `2i + 1` the high bit of the coefficient of `x^i`.
    pub fn bit_decomposition(&self) -> (bits: Vec<bool>)
        ensures
            bits.len() == 128,
            forall|i: int| 0 <= i < 64 ==> bits[2 * i] == (bit64(self.lsb, i) == 1) && bits[2 * i
                + 1] == (bit64(self.msb, i) == 1),
    {
        let mut bits: Vec<bool> = Vec::new();
        let mut i: u64 = 0;
        while i < 128
            invariant
                i <= 128,
                bits.len() == i,
                forall|k: int| 0 <= k < i ==> #[trigger] bits[k] == (if k % 2 == 0 {
                    bit64(self.lsb, k / 2) == 1
                } else {
                    bit64(self.msb, k / 2) == 1
                }),
            decreases 128 - i,
        {
            let index = i / 2;
            let bit = (self.lsb & (1u64 << index)) != 0;
            let bit_msb = (self.msb & (1u64 << index)) != 0;
            proof {
                lemma_mask_bit(self.lsb, index);
                lemma_mask_bit(self.msb, index);
            }
            bits.push(if i % 2 == 0 {
                bit
            } else {
                bit_msb
            });
            i = i + 1;
        }
        proof {
            assert forall|i: int| 0 <= i < 64 implies bits[2 * i] == (bit64(self.lsb, i) == 1)
                && bits[2 * i + 1] == (bit64(self.msb, i) == 1) by {
                assert(bits[2 * i] == (bit64(self.lsb, (2 * i) / 2) == 1));
                assert(bits[2 * i + 1] == (bit64(self.msb, (2 * i + 1) / 2) == 1));
            }
        }
        bits
    }

    /// Appends the coefficient `c` below all others: the result is `x * self + c`,
    /// valid when the top coefficient is zero.
    fn shift_in(acc: F64t, c: F3) -> (r: F64t)
        requires
            acc.wf(),
            c.wf(),
            acc.poly()[63] == 0,
        ensures
            r.wf(),
            r.poly()[0] == c.val(),
            forall|j: int| 1 <= j < 64 ==> r.poly()[j] == acc.poly()[j - 1],
    {
        let bm = c.msb as u64;
        let bl = c.lsb as u64;
        proof {
            lemma_wf_bits(acc.msb, acc.lsb, 63);
            lemma_shift_in_bits(acc.msb, acc.lsb, bm, bl, 0);
        }
        let r = F64t { msb: (acc.msb << 1) + bm, lsb: (acc.lsb << 1) + bl };
        proof {
            assert forall|j: int| 1 <= j < 64 implies r.poly()[j] == acc.poly()[j - 1] by {
                lemma_shift_in_bits(acc.msb, acc.lsb, bm, bl, j as u64);
            }
        }
        r
    }

    /// The 64 coefficients as elements of GF(3), constant term first.
    pub fn decompose_superfield(fe: &F64t) -> (r: Vec<F3>)
        requires
            fe.wf(),
        ensures
            r.len() == 64,
            forall|i: int| 0 <= i < 64 ==> (#[trigger] r[i]).wf() && r[i].val() == fe.poly()[i],
    {
        let mut r: Vec<F3> = Vec::new();
        let mut i: u64 = 0;
        while i < 64
            invariant
                i <= 64,
                fe.wf(),
                r.len() == i,
                forall|k: int| 0 <= k < i ==> (#[trigger] r[k]).wf() && r[k].val() == fe.poly()[k],
            decreases 64 - i,
        {
            let msb = (fe.msb >> i) & 1;
            let lsb = (fe.lsb >> i) & 1;
            proof {
                lemma_wf_bits(fe.msb, fe.lsb, i);
            }
            let x = match F3::try_from((msb * 2 + lsb) as u8) {
                Ok(x) => x,
                Err(_) => F3::zero(),
            };
            r.push(x);
            i = i + 1;
        }
        r
    }

    /// The element whose coefficients, constant term first, are `components`.
    pub fn form_superfield(components: &Vec<F3>) -> (r: F64t)
        requires
            components.len() == 64,
            forall|i: int| 0 <= i < 64 ==> (#[trigger] components[i]).wf(),
        ensures
            r.wf(),
            forall|i: int| 0 <= i < 64 ==> r.poly()[i] == (#[trigger] components[i]).val(),
    {
        let mut acc = F64t::zero();
        let mut k: usize = 64;
        while k > 0
            invariant
                k <= 64,
                components.len() == 64,
                forall|i: int| 0 <= i < 64 ==> (#[trigger] components[i]).wf(),
                acc.wf(),
                forall|j: int| 0 <= j < 64 - k ==> acc.poly()[j] == components[k + j].val(),
                forall|j: int| 64 - k <= j < 64 ==> acc.poly()[j] == 0,
            decreases k,
        {
            k = k - 1;
            let ghost old_acc = acc;
            acc = F64t::shift_in(acc, components[k]);
            proof {
                assert forall|j: int| 0 <= j < 64 - k implies acc.poly()[j] == components[k
                    + j].val() by {
                    if j > 0 {
                        assert(acc.poly()[j] == old_acc.poly()[j - 1]);
                    }
                }
            }
        }
        acc
    }

    /// The 16-byte encoding: `msb` then `lsb`, each little-endian.
    pub fn to_bytes(&self) -> (r: [u8; 16])
        ensures
            le_value(r@.subrange(0, 8)) == self.msb,
            le_value(r@.subrange(8, 16)) == self.lsb,
    {
        let m = u64_to_le(self.msb);
        let l = u64_to_le(self.lsb);
        let r = concat8(&m, &l);
        assert(r@.subrange(0, 8) =~= m@);
        assert(r@.subrange(8, 16) =~= l@);
        r
    }

    /// Decodes the 16-byte encoding; every byte string decodes.
    pub fn from_bytes(bytes: &[u8; 16]) -> (r: F64t)
        ensures
            r.msb == le_value(bytes@.subrange(0, 8)),
            r.lsb == le_value(bytes@.subrange(8, 16)),
    {
        let m = take8(bytes, 0);
        let l = take8(bytes, 8);
        F64t { msb: le_u64(&m), lsb: le_u64(&l) }
    }

    /// Maps 16 bytes to an element: each 2-bit group, taken from the low bits of the
    /// first byte onward, gives one coefficient modulo three, the first group the
    /// coefficient of `x^63`.
    pub fn from_uniform_bytes(x: &[u8; 16]) -> (r: F64t)
        ensures
            r.wf(),
            forall|k: int| 0 <= k < 64 ==> r.poly()[k] == uniform_digit(x@, 63 - k),
    {
        let mut acc = F64t::zero();
        let mut j: usize = 0;
        while j < 16
            invariant
                j <= 16,
                acc.wf(),
                forall|k: int| 0 <= k < 4 * j ==> acc.poly()[k] == uniform_digit(x@, 4 * j - 1 - k),
                forall|k: int| 4 * j <= k < 64 ==> acc.poly()[k] == 0,
            decreases 16 - j,
        {
            let mut i: usize = 0;
            while i < 4
                invariant
                    j < 16,
                    i <= 4,
                    acc.wf(),
                    forall|k: int| 0 <= k < 4 * j + i ==> acc.poly()[k] == uniform_digit(x@, 4 * j + i - 1 - k),
                    forall|k: int| 4 * j + i <= k < 64 ==> acc.poly()[k] == 0,
                decreases 4 - i,
            {
                let bits = (x[j] >> (2 * i) as u8) & 0b11;
                let value = bits % 3;
                let c = F3::from_u8_mod(value);
                proof {
                    vstd::arithmetic::div_mod::lemma_mod_twice(bits as int, 3);
                    assert(c.val() == uniform_digit(x@, 4 * j + i));
                }
                let ghost old_acc = acc;
                acc = F64t::shift_in(acc, c);
                proof {
                    assert forall|k: int| 0 <= k < 4 * j + i + 1 implies acc.poly()[k] == uniform_digit(x@, 4 * j + i + 1 - 1 - k) by {
                        if k > 0 {
                            assert(acc.poly()[k] == old_acc.poly()[k - 1]);
                        }
                    }
                }
                i = i + 1;
            }
            j = j + 1;
        }
        acc
    }

    /// A random element: 128 random bits mapped as by `from_uniform_bytes`.
    pub fn random(rng: &mut rand::rngs::StdRng) -> (r: F64t)
        ensures
            r.wf(),
    {
        let a = crate::rng::rng_next_u64(rng);
        let b = crate::rng::rng_next_u64(rng);
        // the 128-bit integer (a << 64) + b, little-endian: b's bytes come first
        let lo = u64_to_le(b);
        let hi = u64_to_le(a);
        let buf = concat8(&lo, &hi);
        F64t::from_uniform_bytes(&buf)
    }

    /// The sum of `arr[i] * vec[i]` over the first `4 * (C / 4)` indices.
    pub fn compute_vector<const C: usize>(arr: [F3; C], vec: &Vec<F64t>) -> (r: F64t)
        requires
            vec.len() >= 4 * (C / 4),
            forall|i: int| 0 <= i < C ==> (#[trigger] arr@[i]).wf(),
            forall|i: int| 0 <= i < vec.len() ==> (#[trigger] vec[i]).wf(),
        ensures
            r.wf(),
            r.poly() == plincomb(f3_vals(arr@), f64t_polys(vec@), 64, 4 * (C / 4) as nat),
    {
        let n = 4 * (C / 4);
        let mut acc = F64t::zero();
        let mut i: usize = 0;
        while i < n
            invariant
                n == 4 * (C / 4),
                n <= C,
                i <= n,
                vec.len() >= n,
                forall|k: int| 0 <= k < C ==> (#[trigger] arr@[k]).wf(),
                forall|k: int| 0 <= k < vec.len() ==> (#[trigger] vec[k]).wf(),
                acc.wf(),
                acc.poly() == plincomb(f3_vals(arr@), f64t_polys(vec@), 64, i as nat),
            decreases n - i,
        {
            let term = F64t::scale(arr[i], &vec[i]);
            acc.add_assign(&term);
            proof {
                assert(f3_vals(arr@)[i as int] == arr@[i as int].val());
                assert(f64t_polys(vec@)[i as int] == vec[i as int].poly());
            }
            i = i + 1;
        }
        acc
    }
}

/// The values of a sequence of GF(3) elements.
pub open spec fn f3_vals(s: Seq<F3>) -> Seq<nat> {
    Seq::new(s.len(), |i: int| s[i].val())
}

/// The coefficient sequences of a sequence of elements.
pub open spec fn f64t_polys(s: Seq<F64t>) -> Seq<Seq<nat>> {
    Seq::new(s.len(), |i: int| s[i].poly())
}

/// The `t`-th 2-bit group of a byte string, low bits of each byte first, modulo three.
pub open spec fn uniform_digit(x: Seq<u8>, t: int) -> nat {
    (((x[t / 4] >> (2 * (t % 4)) as u8) & 3u8) % 3) as nat
}

proof fn lemma_mask_bit(w: u64, i: u64)
    by (bit_vector)
    requires
        i < 64,
    ensures
        ((w & (1u64 << i)) != 0) == (((w >> i) & 1u64) == 1u64),
{
}

proof fn lemma_shift_in_bits(m: u64, l: u64, bm: u64, bl: u64, i: u64)
    by (bit_vector)
    requires
        i < 64,
        m & l == 0,
        bm <= 1,
        bl <= 1,
        !(bm == 1 && bl == 1),
        (m >> 63) & 1 == 0,
        (l >> 63) & 1 == 0,
    ensures
        (m << 1) + bm <= 0xffffffffffffffffu64,
        (l << 1) + bl <= 0xffffffffffffffffu64,
        (((m << 1) + bm) as u64) & (((l << 1) + bl) as u64) == 0,
        i == 0 ==> ((((m << 1) + bm) as u64) >> i) & 1 == bm,
        i == 0 ==> ((((l << 1) + bl) as u64) >> i) & 1 == bl,
        i > 0 ==> ((((m << 1) + bm) as u64) >> i) & 1 == (m >> ((i - 1) as u64)) & 1,
        i > 0 ==> ((((l << 1) + bl) as u64) >> i) & 1 == (l >> ((i - 1) as u64)) & 1,
{
}


/// The operations' results satisfy the laws of a commutative ring: addition
/// (coefficient-wise modulo three) is commutative and associative with neutral zero and
/// the negation as inverse, multiplication is commutative and associative with neutral
/// one, and it distributes over addition.
pub proof fn lemma_f64t_ring_laws(a: F64t, b: F64t, c: F64t)
    requires
        a.wf(),
        b.wf(),
        c.wf(),
    ensures
        padd(a.poly(), b.poly()) == padd(b.poly(), a.poly()),
        padd(padd(a.poly(), b.poly()), c.poly()) == padd(a.poly(), padd(b.poly(), c.poly())),
        padd(a.poly(), pzero(64)) == a.poly(),
        padd(a.poly(), pneg(a.poly())) == pzero(64),
        pmul(a.poly(), padd(b.poly(), c.poly()), red64()) == padd(pmul(a.poly(), b.poly(), red64()), pmul(a.poly(), c.poly(), red64())),
        pmul(a.poly(), b.poly(), red64()) == pmul(b.poly(), a.poly(), red64()),
        pmul(pmul(a.poly(), b.poly(), red64()), c.poly(), red64()) == pmul(
            a.poly(),
            pmul(b.poly(), c.poly(), red64()),
            red64(),
        ),
        pmul(a.poly(), crate::gf3poly::pmono(64, 0), red64()) == a.poly(),
{
    lemma_f64t_reduced(a);
    lemma_f64t_reduced(b);
    lemma_f64t_reduced(c);
    crate::gf3poly::lemma_padd_group(a.poly(), b.poly(), c.poly());
    crate::gf3poly::lemma_pmul_distributes(a.poly(), b.poly(), c.poly(), red64());
    crate::gf3poly::lemma_pmul_commutative(a.poly(), b.poly(), red64());
    crate::gf3poly::lemma_pmul_associative(a.poly(), b.poly(), c.poly(), red64());
    crate::gf3poly::lemma_pmul_mono(a.poly(), red64(), 0);
}



/// The embedding of GF(3): the element's two bits become the bits of the constant
/// coefficient.
impl From<F3> for F64t {
    fn from(pf: F3) -> (r: F64t) {
        F64t { msb: pf.msb as u64, lsb: pf.lsb as u64 }
    }
}

impl vstd::std_specs::convert::FromSpecImpl<F3> for F64t {
    open spec fn obeys_from_spec() -> bool {
        true
    }

    open spec fn from_spec(pf: F3) -> F64t {
        F64t { msb: pf.msb as u64, lsb: pf.lsb as u64 }
    }
}

} // verus!
