//! GF(3^82) as GF(3)[x] / (x^82 + 2x^2 + 1), stored bit-sliced: bit `i` of `msb` and of
//! `lsb` together hold the coefficient of `x^i`.
use vstd::prelude::*;
use crate::f3::F3;
use crate::f64t::f3_vals;
use crate::bytes::{le_value, le_digits, lemma_le_bytes16, le_u128, u128_to_le, take16, concat16};
use crate::f256b::{bitb, lemma_word_eq_by_bits};
use crate::gf3poly::{
    reduced, pzero, pone, padd, pneg, psub, pscale, xtimes, horner, pmul, ppow, plincomb, fpow,
    lemma_pmul_one, lemma_fpow_shape, lemma_fpow_add, lemma_ppow_fpow, lemma_fpow_mul,
};
use vstd::arithmetic::power::{pow, lemma_pow_positive, lemma_pow_adds, lemma_pow1};

verus! {

/// A field element of GF(3^82); the coefficient of `x^i` is `2 * msb_i + lsb_i`.
#[derive(Clone, Copy, Debug, PartialEq, Eq, Structural, Hash)]
pub struct F82t {
    /// Most significant bits of the coefficients.
    pub msb: u128,
    /// Least significant bits of the coefficients.
    pub lsb: u128,
}

/// The low 82 bits.
pub const MASK82: u128 = 0x3ffffffffffffffffffff;

/// Bit `i` of `w`.
pub open spec fn bit128(w: u128, i: int) -> nat {
    ((w >> (i as u128)) & 1u128) as nat
}

/// `x^82` is replaced by `x^2 + 2`.
pub open spec fn red82() -> Seq<nat> {
    Seq::new(82, |i: int| if i == 0 { 2nat } else if i == 2 { 1nat } else { 0nat })
}

impl F82t {
    /// No coefficient has both bits set, and no bit lies above the 82 coefficients.
    pub open spec fn wf(self) -> bool {
        &&& self.msb & self.lsb == 0
        &&& self.msb >> 82u128 == 0
        &&& self.lsb >> 82u128 == 0
    }

    /// The coefficient of `x^i`.
    pub open spec fn coef(self, i: int) -> nat {
        2 * bit128(self.msb, i) + bit128(self.lsb, i)
    }

    /// The 82 coefficients, constant term first.
    pub open spec fn poly(self) -> Seq<nat> {
        Seq::new(82, |i: int| self.coef(i))
    }
}

proof fn lemma_add_bits(am: u128, al: u128, bm: u128, bl: u128, m: u128, l: u128, i: u128)
    by (bit_vector)
    requires
        i < 82,
        am & al == 0,
        bm & bl == 0,
        am >> 82 == 0,
        al >> 82 == 0,
        bm >> 82 == 0,
        bl >> 82 == 0,
        m == (al | bl) ^ ((al | bm) ^ (am | bl)),
        l == (am | bm) ^ ((al | bm) ^ (am | bl)),
    ensures
        m & l == 0,
        m >> 82 == 0,
        l >> 82 == 0,
        2 * ((m >> i) & 1) + ((l >> i) & 1) == (2 * ((am >> i) & 1) + ((al >> i) & 1) + 2 * ((bm
            >> i) & 1) + ((bl >> i) & 1)) % 3,
{
}

proof fn lemma_wf_bits(m: u128, l: u128, i: u128)
    by (bit_vector)
    requires
        i < 82,
        m & l == 0,
    ensures
        2 * ((m >> i) & 1) + ((l >> i) & 1) < 3,
        ((m >> i) & 1) <= 1,
        ((l >> i) & 1) <= 1,
{
}

proof fn lemma_swap_bits(m: u128, l: u128)
    by (bit_vector)
    requires
        m & l == 0,
    ensures
        l & m == 0,
        m | 0 == m,
        0 | m == m,
        l | 0 == l,
        0 | l == l,
{
}

/// Bits of the small constants used below.
proof fn lemma_f82t_consts(i: u128)
    by (bit_vector)
    requires
        i < 82,
    ensures
        (0u128 >> i) & 1 == 0,
        0u128 & 0u128 == 0,
        0u128 | 0u128 == 0u128,
        0u128 >> 82u128 == 0,
        0u128 & 1 == 0,
        0u128 & 1u128 == 0,
        0u128 & 2u128 == 0,
        4u128 & 1u128 == 0,
        1u128 & 1 == 1,
        2u128 & 1 == 0,
        4u128 & 1 == 0,
        (0u128 >> 1u128) & 1 == 0,
        (0u128 >> 2u128) & 1 == 0,
        (1u128 >> 1u128) & 1 == 0,
        (1u128 >> 2u128) & 1 == 0,
        (2u128 >> 1u128) & 1 == 1,
        (2u128 >> 2u128) & 1 == 0,
        (4u128 >> 1u128) & 1 == 0,
        (4u128 >> 2u128) & 1 == 1,
{
}

proof fn lemma_shl_mask_bits(m: u128, l: u128, i: u128)
    by (bit_vector)
    requires
        i < 82,
        m & l == 0,
        m >> 82 == 0,
        l >> 82 == 0,
    ensures
        ((m << 1) & 0x3ffffffffffffffffffffu128) & ((l << 1) & 0x3ffffffffffffffffffffu128) == 0,
        ((m << 1) & 0x3ffffffffffffffffffffu128) >> 82 == 0,
        i == 0 ==> (((m << 1) & 0x3ffffffffffffffffffffu128) >> i) & 1 == 0,
        i > 0 ==> (((m << 1) & 0x3ffffffffffffffffffffu128) >> i) & 1 == (m >> ((i - 1) as u128)) & 1,
        (m >> 81) == (m >> 81u128) & 1,
{
}

/// A well-formed element has its coefficients in `0..3`.
pub proof fn lemma_f82t_reduced(x: F82t)
    requires
        x.wf(),
    ensures
        reduced(x.poly()),
        x.poly().len() == 82,
{
    assert forall|i: int| 0 <= i < 82 implies #[trigger] x.poly()[i] < 3 by {
        lemma_wf_bits(x.msb, x.lsb, i as u128);
    }
}

proof fn lemma_high_bits_clear(w: u128, i: u128)
    by (bit_vector)
    requires
        w >> 82u128 == 0,
        82 <= i < 128,
    ensures
        (w >> i) & 1 == 0,
{
}

/// Well-formed elements with the same coefficients are equal.
pub proof fn lemma_f82t_poly_injective(a: F82t, b: F82t)
    requires
        a.wf(),
        b.wf(),
        a.poly() == b.poly(),
    ensures
        a == b,
{
    assert forall|i: int| 0 <= i < 128 implies bitb(a.msb, i) == bitb(b.msb, i) && bitb(a.lsb, i)
        == bitb(b.lsb, i) by {
        let iu = i as u128;
        if i < 82 {
            lemma_wf_bits(a.msb, a.lsb, iu);
            lemma_wf_bits(b.msb, b.lsb, iu);
            assert(a.poly()[i] == a.coef(i));
            assert(b.poly()[i] == b.coef(i));
            assert(a.coef(i) == b.coef(i));
        } else {
            lemma_high_bits_clear(a.msb, iu);
            lemma_high_bits_clear(a.lsb, iu);
            lemma_high_bits_clear(b.msb, iu);
            lemma_high_bits_clear(b.lsb, iu);
        }
    }
    lemma_word_eq_by_bits(a.msb, b.msb);
    lemma_word_eq_by_bits(a.lsb, b.lsb);
}

/// The sum of two elements computed on their bit-sliced words: a coefficient pair
/// `(m, l)` per position, added modulo three without carries between positions.
pub open spec fn sum_words(a: F82t, b: F82t) -> F82t {
    let t = (a.lsb | b.msb) ^ (a.msb | b.lsb);
    F82t { msb: (a.lsb | b.lsb) ^ t, lsb: (a.msb | b.msb) ^ t }
}

/// The word-level sum of two well-formed elements is well formed, and its coefficients
/// are the sums of theirs modulo three.
pub proof fn lemma_sum_words(a: F82t, b: F82t)
    requires
        a.wf(),
        b.wf(),
    ensures
        sum_words(a, b).wf(),
        sum_words(a, b).poly() == padd(a.poly(), b.poly()),
{
    let r = sum_words(a, b);
    lemma_add_bits(a.msb, a.lsb, b.msb, b.lsb, r.msb, r.lsb, 0);
    assert forall|i: int| 0 <= i < 82 implies #[trigger] r.poly()[i] == padd(a.poly(), b.poly())[i] by {
        lemma_add_bits(a.msb, a.lsb, b.msb, b.lsb, r.msb, r.lsb, i as u128);
    }
    assert(r.poly() =~= padd(a.poly(), b.poly()));
}

impl F82t {
    /// Builds an element from a coefficient word pair holding at most small constants.
    fn small(msb: u128, lsb: u128) -> (r: F82t)
        requires
            msb < 8,
            lsb < 8,
            msb & lsb == 0,
        ensures
            r.wf(),
            r.msb == msb,
            r.lsb == lsb,
            forall|i: int| 3 <= i < 82 ==> r.poly()[i] == 0,
            r.poly()[0] == 2 * (msb & 1) + (lsb & 1),
            r.poly()[1] == 2 * ((msb >> 1) & 1) + ((lsb >> 1) & 1),
            r.poly()[2] == 2 * ((msb >> 2) & 1) + ((lsb >> 2) & 1),
    {
        let r = F82t { msb, lsb };
        proof {
            assert(msb >> 82u128 == 0 && lsb >> 82u128 == 0 && (msb >> 0u128) & 1 == msb & 1 && (lsb >> 0u128) & 1 == lsb & 1) by (bit_vector)
                requires
                    msb < 8,
                    lsb < 8,
            ;
            assert forall|i: int| 3 <= i < 82 implies r.poly()[i] == 0 by {
                let iu = i as u128;
                assert((msb >> iu) & 1 == 0 && (lsb >> iu) & 1 == 0) by (bit_vector)
                    requires
                        msb < 8,
                        lsb < 8,
                        3 <= iu < 82,
                ;
            }
        }
        r
    }

    /// Zero.
    pub fn zero() -> (r: F82t)
        ensures
            r.wf(),
            r.poly() == pzero(82),
    {
        proof {
            lemma_f82t_consts(0);
        }
        let r = F82t::small(0, 0);
        proof {
            assert(r.poly() =~= pzero(82));
        }
        r
    }

    /// One.
    pub fn one() -> (r: F82t)
        ensures
            r.wf(),
            r.poly() == pone(82),
    {
        proof {
            lemma_f82t_consts(0);
        }
        let r = F82t::small(0, 1);
        proof {
            assert(r.poly() =~= pone(82));
        }
        r
    }

    /// The generator `x` of the multiplicative group.
    pub fn generator() -> (r: F82t)
        ensures
            r.wf(),
            forall|i: int| 0 <= i < 82 ==> r.poly()[i] == (if i == 1 { 1nat } else { 0nat }),
    {
        proof {
            lemma_f82t_consts(0);
        }
        F82t::small(0, 2)
    }

    /// Constant-time equality: 1 when the elements are equal, 0 otherwise.
    pub fn ct_eq(&self, other: &F82t) -> (r: u8)
        ensures
            r == (if *self == *other { 1u8 } else { 0u8 }),
    {
        crate::ct::choice_and(crate::ct::ct_eq_u128(self.msb, other.msb), crate::ct::ct_eq_u128(self.lsb, other.lsb))
    }

    /// Constant-time selection: `a` when `choice` is 0, `b` when it is 1.
    pub fn conditional_select(a: &F82t, b: &F82t, choice: u8) -> (r: F82t)
        requires
            choice <= 1,
        ensures
            r == (if choice == 0 { *a } else { *b }),
    {
        F82t { msb: crate::ct::conditional_select_u128(a.msb, b.msb, choice), lsb: crate::ct::conditional_select_u128(a.lsb, b.lsb, choice) }
    }

    /// Field addition: coefficient-wise addition modulo three.
    pub fn add_assign(&mut self, rhs: &F82t)
        requires
            old(self).wf(),
            rhs.wf(),
        ensures
            final(self).wf(),
            final(self).poly() == padd(old(self).poly(), rhs.poly()),
            *final(self) == sum_words(*old(self), *rhs),
    {
        let ghost a = *self;
        let t = (self.lsb | rhs.msb) ^ (self.msb | rhs.lsb);
        let msb = (self.lsb | rhs.lsb) ^ t;
        let lsb = (self.msb | rhs.msb) ^ t;
        self.msb = msb;
        self.lsb = lsb;
        proof {
            lemma_sum_words(a, *rhs);
        }
    }

    /// The additive inverse: the bits of each coefficient swap.
    pub fn neg(&self) -> (r: F82t)
        requires
            self.wf(),
        ensures
            r.wf(),
            r.poly() == pneg(self.poly()),
    {
        let r = F82t { msb: self.lsb, lsb: self.msb };
        proof {
            lemma_swap_bits(self.msb, self.lsb);
            assert forall|i: int| 0 <= i < 82 implies #[trigger] r.poly()[i] == pneg(self.poly())[i] by {
                lemma_wf_bits(self.msb, self.lsb, i as u128);
            }
            assert(r.poly() =~= pneg(self.poly()));
        }
        r
    }

    /// Field subtraction: adds the additive inverse.
    pub fn sub_assign(&mut self, rhs: &F82t)
        requires
            old(self).wf(),
            rhs.wf(),
        ensures
            final(self).wf(),
            final(self).poly() == psub(old(self).poly(), rhs.poly()),
    {
        let neg = rhs.neg();
        self.add_assign(&neg);
    }

    /// The sum of two elements.
    pub fn add(&self, rhs: &F82t) -> (r: F82t)
        requires
            self.wf(),
            rhs.wf(),
        ensures
            r.wf(),
            r.poly() == padd(self.poly(), rhs.poly()),
            r == sum_words(*self, *rhs),
    {
        let mut r = *self;
        r.add_assign(rhs);
        r
    }

    /// The difference of two elements.
    pub fn sub(&self, rhs: &F82t) -> (r: F82t)
        requires
            self.wf(),
            rhs.wf(),
        ensures
            r.wf(),
            r.poly() == psub(self.poly(), rhs.poly()),
    {
        let mut r = *self;
        r.sub_assign(rhs);
        r
    }

    /// Multiplication by a constant of GF(3).
    pub fn scale(c: F3, rhs: &F82t) -> (r: F82t)
        requires
            c.wf(),
            rhs.wf(),
        ensures
            r.wf(),
            r.poly() == pscale(c.val(), rhs.poly()),
    {
        let cl = c.lsb as u128;
        let cm = c.msb as u128;
        proof {
            assert(rhs.msb * cl <= rhs.msb && rhs.lsb * cl <= rhs.lsb && rhs.msb * cm <= rhs.msb && rhs.lsb * cm <= rhs.lsb) by (nonlinear_arith)
                requires cl <= 1, cm <= 1;
        }
        let msb = rhs.msb * cl | rhs.lsb * cm;
        let lsb = rhs.lsb * cl | rhs.msb * cm;
        let r = F82t { msb, lsb };
        proof {
            let rm = rhs.msb;
            let rl = rhs.lsb;
            assert(rm * 0 == 0 && rm * 1 == rm && rl * 0 == 0 && rl * 1 == rl);
            lemma_swap_bits(rm, rl);
            lemma_f82t_consts(0);
            if c.val() == 0 {
                assert(msb == 0 && lsb == 0);
            } else if c.val() == 1 {
                assert(msb == rm && lsb == rl);
            } else {
                assert(msb == rl && lsb == rm);
            }
            assert forall|i: int| 0 <= i < 82 implies #[trigger] r.poly()[i] == pscale(c.val(), rhs.poly())[i] by {
                let iu = i as u128;
                lemma_wf_bits(rm, rl, iu);
                lemma_f82t_consts(iu);
                let bm = bit128(rm, i);
                let bl = bit128(rl, i);
                assert(rhs.poly()[i] == 2 * bm + bl);
                if c.val() == 0 {
                    assert(r.poly()[i] == 0);
                } else if c.val() == 1 {
                    assert(r.poly()[i] == 2 * bm + bl);
                } else {
                    assert(r.poly()[i] == 2 * bl + bm);
                    assert((2 * bl + bm) % 3 == (2 * (2 * bm + bl)) % 3) by {
                        if bm == 0 && bl == 0 {
                        } else if bm == 0 {
                        } else {
                        }
                    }
                }
            }
            assert(r.poly() =~= pscale(c.val(), rhs.poly()));
        }
        r
    }

    /// The embedding of GF(3) as the constant polynomials.
    pub fn from_f3(pf: F3) -> (r: F82t)
        requires
            pf.wf(),
        ensures
            r.wf(),
            r.poly()[0] == pf.val(),
            forall|i: int| 1 <= i < 82 ==> r.poly()[i] == 0,
    {
        let m = pf.msb as u128;
        let l = pf.lsb as u128;
        proof {
            assert(m <= 1 && l <= 1);
            assert(m & l == 0 && m & 1 == m && l & 1 == l && (m >> 1u128) & 1 == 0 && (l >> 1u128) & 1 == 0 && (m >> 2u128) & 1 == 0 && (l >> 2u128) & 1 == 0) by (bit_vector)
                requires
                    (m == 0 && l <= 1) || (m == 1 && l == 0),
            ;
        }
        F82t::small(m, l)
    }

    /// The coefficient of `x^i` as an element of GF(3).
    fn coef_f3(&self, i: u128) -> (r: F3)
        requires
            self.wf(),
            i < 82,
        ensures
            r.wf(),
            r.val() == self.poly()[i as int],
    {
        let m = ((self.msb >> i) & 1) as u8;
        let l = ((self.lsb >> i) & 1) as u8;
        proof {
            lemma_wf_bits(self.msb, self.lsb, i);
        }
        F3 { msb: m, lsb: l }
    }

    /// Multiplication by `x`: the coefficients move up one place and the coefficient
    /// falling off the top comes back as that multiple of `x^82 = x^2 + 2`.
    fn shift_left_reduce(x: F82t) -> (r: F82t)
        requires
            x.wf(),
        ensures
            r.wf(),
            r.poly() == xtimes(x.poly(), red82()),
    {
        proof {
            lemma_f82t_consts(0);
        }
        let base = F82t::small(4, 1);
        let msb = x.msb << 1;
        let lsb = x.lsb << 1;
        let mut reduced = F82t { msb: msb & MASK82, lsb: lsb & MASK82 };
        proof {
            lemma_shl_mask_bits(x.msb, x.lsb, 0);
            lemma_swap_bits(x.msb, x.lsb);
            lemma_shl_mask_bits(x.lsb, x.msb, 0);
            lemma_wf_bits(x.msb, x.lsb, 81);
        }
        let ghost shifted = reduced;
        let ghost t = x.poly()[81];
        proof {
            assert(t == 2 <==> x.msb >> 81 == 1);
            assert(t == 1 <==> x.lsb >> 81 == 1);
            assert forall|i: int| 0 <= i < 82 implies #[trigger] shifted.poly()[i] == (if i == 0 {
                0nat
            } else {
                x.poly()[i - 1]
            }) by {
                let iu = i as u128;
                lemma_shl_mask_bits(x.msb, x.lsb, iu);
                lemma_shl_mask_bits(x.lsb, x.msb, iu);
            }
            assert(base.poly()[0] == 1 && base.poly()[1] == 0 && base.poly()[2] == 2) by {
                lemma_f82t_consts(0);
            }
        }
        if x.msb >> 81 == 1 {
            reduced.add_assign(&base);
        }
        if x.lsb >> 81 == 1 {
            reduced.sub_assign(&base);
        }
        proof {
            let xp = x.poly();
            assert forall|i: int| 0 <= i < 82 implies #[trigger] reduced.poly()[i] == xtimes(
                xp,
                red82(),
            )[i] by {
                let iu = i as u128;
                lemma_wf_bits(x.msb, x.lsb, iu);
                if i > 0 {
                    lemma_wf_bits(x.msb, x.lsb, (iu - 1) as u128);
                }
                let sv = shifted.poly()[i];
                assert(sv < 3);
                assert(xtimes(xp, red82())[i] == (sv + t * red82()[i]) % 3);
                if t == 0 {
                    assert(reduced == shifted);
                } else if t == 1 {
                    assert(reduced.poly() == psub(shifted.poly(), base.poly()));
                } else {
                    assert(reduced.poly() == padd(shifted.poly(), base.poly()));
                }
            }
            assert(reduced.poly() =~= xtimes(x.poly(), red82()));
        }
        reduced
    }

    /// Field multiplication, by Horner's rule over the coefficients of `rhs` from the top.
    pub fn mul_assign(&mut self, rhs: &F82t)
        requires
            old(self).wf(),
            rhs.wf(),
        ensures
            final(self).wf(),
            final(self).poly() == pmul(old(self).poly(), rhs.poly(), red82()),
    {
        let a = *self;
        let mut acc = F82t::zero();
        let mut i: u128 = 82;
        while i > 0
            invariant
                i <= 82,
                a.wf(),
                rhs.wf(),
                acc.wf(),
                acc.poly() == horner(a.poly(), rhs.poly(), red82(), i as nat),
            decreases i,
        {
            i = i - 1;
            acc = F82t::shift_left_reduce(acc);
            let c = rhs.coef_f3(i);
            let term = F82t::scale(c, &a);
            acc.add_assign(&term);
        }
        *self = acc;
    }

    /// The product of two elements.
    pub fn mul(&self, rhs: &F82t) -> (r: F82t)
        requires
            self.wf(),
            rhs.wf(),
        ensures
            r.wf(),
            r.poly() == pmul(self.poly(), rhs.poly(), red82()),
    {
        let mut r = *self;
        r.mul_assign(rhs);
        r
    }

    /// `self^e`, by square-and-multiply over the bits of `e`.
    pub fn pow_var_time(&self, e: u128) -> (r: F82t)
        requires
            self.wf(),
        ensures
            r.wf(),
            r.poly() == ppow(self.poly(), e as nat, red82()),
        decreases e,
    {
        if e == 0 {
            F82t::one()
        } else {
            let h = self.pow_var_time(e / 2);
            let sq = h.mul(&h);
            if e % 2 == 0 {
                sq
            } else {
                sq.mul(self)
            }
        }
    }

    /// `self^e`.
    pub fn pow(&self, e: u128) -> (r: F82t)
        requires
            self.wf(),
        ensures
            r.wf(),
            r.poly() == ppow(self.poly(), e as nat, red82()),
    {
        self.pow_var_time(e)
    }

    /// `x^3`, computed as `(x * x) * x`.
    fn frob3(x: F82t) -> (r: F82t)
        requires
            x.wf(),
        ensures
            r.wf(),
            r.poly() == cube82(x.poly()),
    {
        x.mul(&x).mul(&x)
    }

    /// The multiplicative inverse of a non-zero element, `self^(3^82 - 2)`, computed with
    /// the Frobenius map: with `t_i = self^(3^i)`, the result is
    /// `t_81 * t_0^4 * t_1^4 * ... * t_80^4`, which is `self^(3^81 + 2 * (3^81 - 1))`.
    pub fn inverse(&self) -> (r: F82t)
        requires
            self.wf(),
            !(self.msb == 0 && self.lsb == 0),
        ensures
            r.wf(),
            r.poly() == ppow(self.poly(), (pow(3, 82) - 2) as nat, red82()),
    {
        let mut t: Vec<F82t> = Vec::new();
        t.push(*self);
        let mut i: usize = 1;
        while i <= 81
            invariant
                1 <= i <= 82,
                self.wf(),
                t.len() == i,
                forall|k: int| 0 <= k < i ==> (#[trigger] t[k]).wf() && t[k].poly() == frob_chain(self.poly(), k as nat),
            decreases 82 - i,
        {
            let next = F82t::frob3(t[i - 1]);
            t.push(next);
            i = i + 1;
        }
        let mut acc = t[81];
        let mut j: usize = 0;
        while j <= 80
            invariant
                j <= 81,
                t.len() == 82,
                forall|k: int| 0 <= k < 82 ==> (#[trigger] t[k]).wf() && t[k].poly() == frob_chain(self.poly(), k as nat),
                acc.wf(),
                acc.poly() == frob_acc(self.poly(), j as nat),
            decreases 81 - j,
        {
            let sq = t[j].mul(&t[j]).mul(&t[j]).mul(&t[j]);
            acc = acc.mul(&sq);
            j = j + 1;
        }
        proof {
            lemma_f82t_reduced(*self);
            lemma_frob_acc_pow(self.poly(), 81);
            lemma_pow_adds(3, 81, 1);
            lemma_pow1(3);
            lemma_pow_positive(3, 81);
            lemma_ppow_fpow(self.poly(), (pow(3, 82) - 2) as nat, red82());
        }
        acc
    }

    /// The bits of the encoding, two per coefficient: bit `2i` is the low bit and bit
    /// `2i + 1` the high bit of the coefficient of `x^i`.
    pub fn bit_decomposition(&self) -> (bits: Vec<bool>)
        ensures
            bits.len() == 164,
            forall|i: int| 0 <= i < 82 ==> bits[2 * i] == (bit128(self.lsb, i) == 1) && bits[2 * i
                + 1] == (bit128(self.msb, i) == 1),
    {
        let mut bits: Vec<bool> = Vec::new();
        let mut i: u128 = 0;
        while i < 164
            invariant
                i <= 164,
                bits.len() == i,
                forall|k: int| 0 <= k < i ==> #[trigger] bits[k] == (if k % 2 == 0 {
                    bit128(self.lsb, k / 2) == 1
                } else {
                    bit128(self.msb, k / 2) == 1
                }),
            decreases 164 - i,
        {
            let index = i / 2;
            let bit = (self.lsb & (1u128 << index)) != 0;
            let bit_msb = (self.msb & (1u128 << index)) != 0;
            proof {
                lemma_mask_bit(self.lsb, index);
                lemma_mask_bit(self.msb, index);
            }
            bits.push(if i % 2 == 0 {
                bit
            } else {
                bit_msb
            });
            i = i + 1;
        }
        proof {
            assert forall|i: int| 0 <= i < 82 implies bits[2 * i] == (bit128(self.lsb, i) == 1)
                && bits[2 * i + 1] == (bit128(self.msb, i) == 1) by {
                assert(bits[2 * i] == (bit128(self.lsb, (2 * i) / 2) == 1));
                assert(bits[2 * i + 1] == (bit128(self.msb, (2 * i + 1) / 2) == 1));
            }
        }
        bits
    }

    /// Appends the coefficient `c` below all others: the result is `x * self + c`,
    /// valid when the top coefficient is zero.
    fn shift_in(acc: F82t, c: F3) -> (r: F82t)
        requires
            acc.wf(),
            c.wf(),
            acc.poly()[81] == 0,
        ensures
            r.wf(),
            r.poly()[0] == c.val(),
            forall|j: int| 1 <= j < 82 ==> r.poly()[j] == acc.poly()[j - 1],
    {
        let bm = c.msb as u128;
        let bl = c.lsb as u128;
        proof {
            lemma_wf_bits(acc.msb, acc.lsb, 81);
            lemma_shift_in_bits(acc.msb, acc.lsb, bm, bl, 0);
        }
        let r = F82t { msb: (acc.msb << 1) + bm, lsb: (acc.lsb << 1) + bl };
        proof {
            assert forall|j: int| 1 <= j < 82 implies r.poly()[j] == acc.poly()[j - 1] by {
                lemma_shift_in_bits(acc.msb, acc.lsb, bm, bl, j as u128);
            }
        }
        r
    }

    /// The 82 coefficients as elements of GF(3), constant term first.
    pub fn decompose_superfield(fe: &F82t) -> (r: Vec<F3>)
        requires
            fe.wf(),
        ensures
            r.len() == 82,
            forall|i: int| 0 <= i < 82 ==> (#[trigger] r[i]).wf() && r[i].val() == fe.poly()[i],
    {
        let mut r: Vec<F3> = Vec::new();
        let mut i: u128 = 0;
        while i < 82
            invariant
                i <= 82,
                fe.wf(),
                r.len() == i,
                forall|k: int| 0 <= k < i ==> (#[trigger] r[k]).wf() && r[k].val() == fe.poly()[k],
            decreases 82 - i,
        {
            let msb = (fe.msb >> i) & 1;
            let lsb = (fe.lsb >> i) & 1;
            proof {
                lemma_wf_bits(fe.msb, fe.lsb, i);
            }
            let x = match F3::try_from((msb * 2 + lsb) as u8) {
                Ok(x) => x,
                Err(_) => F3::zero(),
            };
            r.push(x);
            i = i + 1;
        }
        r
    }

    /// The element whose coefficients, constant term first, are `components`.
    pub fn form_superfield(components: &Vec<F3>) -> (r: F82t)
        requires
            components.len() == 82,
            forall|i: int| 0 <= i < 82 ==> (#[trigger] components[i]).wf(),
        ensures
            r.wf(),
            forall|i: int| 0 <= i < 82 ==> r.poly()[i] == (#[trigger] components[i]).val(),
    {
        let mut acc = F82t::zero();
        let mut k: usize = 82;
        while k > 0
            invariant
                k <= 82,
                components.len() == 82,
                forall|i: int| 0 <= i < 82 ==> (#[trigger] components[i]).wf(),
                acc.wf(),
                forall|j: int| 0 <= j < 82 - k ==> acc.poly()[j] == components[k + j].val(),
                forall|j: int| 82 - k <= j < 82 ==> acc.poly()[j] == 0,
            decreases k,
        {
            k = k - 1;
            let ghost old_acc = acc;
            acc = F82t::shift_in(acc, components[k]);
            proof {
                assert forall|j: int| 0 <= j < 82 - k implies acc.poly()[j] == components[k
                    + j].val() by {
                    if j > 0 {
                        assert(acc.poly()[j] == old_acc.poly()[j - 1]);
                    }
                }
            }
        }
        acc
    }

    /// The 32-byte encoding: the sixteen little-endian bytes of `msb`, then those of `lsb`.
    pub open spec fn encoding(self) -> Seq<u8> {
        le_digits(self.msb as nat, 16) + le_digits(self.lsb as nat, 16)
    }

    /// The 32-byte encoding: `msb` then `lsb`, each little-endian.
    pub fn to_bytes(&self) -> (r: [u8; 32])
        ensures
            r@ == self.encoding(),
            le_value(r@.subrange(0, 16)) == self.msb,
            le_value(r@.subrange(16, 32)) == self.lsb,
    {
        let m = u128_to_le(self.msb);
        let l = u128_to_le(self.lsb);
        let r = concat16(&m, &l);
        assert(r@.subrange(0, 16) =~= m@);
        assert(r@.subrange(16, 32) =~= l@);
        proof {
            lemma_le_bytes16(self.msb, m@);
            lemma_le_bytes16(self.lsb, l@);
            assert(r@ =~= m@ + l@);
        }
        r
    }

    /// Decodes the 32-byte encoding; every byte string decodes.
    pub fn from_bytes(bytes: &[u8; 32]) -> (r: F82t)
        ensures
            r.msb == le_value(bytes@.subrange(0, 16)),
            r.lsb == le_value(bytes@.subrange(16, 32)),
    {
        let m = take16(bytes, 0);
        let l = take16(bytes, 16);
        F82t { msb: le_u128(&m), lsb: le_u128(&l) }
    }

    /// The element built from random words: the low coefficient bits are `a` with `c`
    /// above it, and a high bit (of `b`, then of `d`) is kept only where the low bit is
    /// clear, all cut to the 82 coefficients.
    pub fn from_random_words(a: u64, b: u64, c: u32, d: u32) -> (r: F82t)
        ensures
            r.wf(),
            r.lsb == (((c as u128) << 64u128) | a as u128) & MASK82,
            r.msb == ((((d ^ (c & d)) as u128) << 64u128) | (b ^ (a & b)) as u128) & MASK82,
    {
        let lsb0: u128 = a as u128;
        let msb0: u128 = (b ^ (a & b)) as u128;
        let lsb_extra = c as u128;
        let msb_extra = (d ^ (c & d)) as u128;
        let lsb = ((lsb_extra << 64) | lsb0) & MASK82;
        let msb = ((msb_extra << 64) | msb0) & MASK82;
        proof {
            let a1 = a as u128;
            let b1 = b as u128;
            let c1 = c as u128;
            let d1 = d as u128;
            assert(msb0 == (b1 ^ (a1 & b1)) && msb_extra == (d1 ^ (c1 & d1))) by (bit_vector)
                requires
                    msb0 == (b ^ (a & b)) as u128,
                    msb_extra == (d ^ (c & d)) as u128,
                    a1 == a as u128,
                    b1 == b as u128,
                    c1 == c as u128,
                    d1 == d as u128,
            ;
            assert(msb & lsb == 0 && msb >> 82u128 == 0 && lsb >> 82u128 == 0) by (bit_vector)
                requires
                    a1 < 0x10000000000000000u128,
                    b1 < 0x10000000000000000u128,
                    c1 < 0x100000000u128,
                    d1 < 0x100000000u128,
                    lsb0 == a1,
                    msb0 == (b1 ^ (a1 & b1)),
                    lsb_extra == c1,
                    msb_extra == (d1 ^ (c1 & d1)),
                    lsb == ((lsb_extra << 64u128) | lsb0) & 0x3ffffffffffffffffffffu128,
                    msb == ((msb_extra << 64u128) | msb0) & 0x3ffffffffffffffffffffu128,
            ;
        }
        F82t { msb, lsb }
    }

    /// A random element from 192 random bits, two 64-bit words and two 32-bit words drawn
    /// in that order, by [`F82t::from_random_words`].
    pub fn random(rng: &mut rand::rngs::StdRng) -> (r: F82t)
        ensures
            r.wf(),
    {
        let a = crate::rng::rng_next_u64(rng);
        let b = crate::rng::rng_next_u64(rng);
        let c = crate::rng::rng_next_u32(rng);
        let d = crate::rng::rng_next_u32(rng);
        F82t::from_random_words(a, b, c, d)
    }

    /// The sum of `arr[i] * vec[i]` over the first `2 * (C / 2)` indices.
    pub fn compute_vector<const C: usize>(arr: [F3; C], vec: &Vec<F82t>) -> (r: F82t)
        requires
            vec.len() >= 2 * (C / 2),
            forall|i: int| 0 <= i < C ==> (#[trigger] arr@[i]).wf(),
            forall|i: int| 0 <= i < vec.len() ==> (#[trigger] vec[i]).wf(),
        ensures
            r.wf(),
            r.poly() == plincomb(f3_vals(arr@), f82t_polys(vec@), 82, 2 * (C / 2) as nat),
    {
        let n = 2 * (C / 2);
        let mut acc = F82t::zero();
        let mut i: usize = 0;
        while i < n
            invariant
                n == 2 * (C / 2),
                n <= C,
                i <= n,
                vec.len() >= n,
                forall|k: int| 0 <= k < C ==> (#[trigger] arr@[k]).wf(),
                forall|k: int| 0 <= k < vec.len() ==> (#[trigger] vec[k]).wf(),
                acc.wf(),
                acc.poly() == plincomb(f3_vals(arr@), f82t_polys(vec@), 82, i as nat),
            decreases n - i,
        {
            let term = F82t::scale(arr[i], &vec[i]);
            acc.add_assign(&term);
            proof {
                assert(f3_vals(arr@)[i as int] == arr@[i as int].val());
                assert(f82t_polys(vec@)[i as int] == vec[i as int].poly());
            }
            i = i + 1;
        }
        acc
    }
}

/// `a^3` modulo `x^82 - (x^2 + 2)`, as `(a * a) * a`.
pub open spec fn cube82(a: Seq<nat>) -> Seq<nat> {
    pmul(pmul(a, a, red82()), a, red82())
}

/// `a^(3^k)`, by cubing `k` times.
pub open spec fn frob_chain(a: Seq<nat>, k: nat) -> Seq<nat>
    decreases k,
{
    if k == 0 {
        a
    } else {
        cube82(frob_chain(a, (k - 1) as nat))
    }
}

/// `t_81 * t_0^4 * ... * t_(j-1)^4`, each fourth power taken as `((t * t) * t) * t` and
/// the factors multiplied in from the left.
spec fn frob_acc(a: Seq<nat>, j: nat) -> Seq<nat>
    decreases j,
{
    if j == 0 {
        frob_chain(a, 81)
    } else {
        let t = frob_chain(a, (j - 1) as nat);
        let sq = pmul(pmul(pmul(t, t, red82()), t, red82()), t, red82());
        pmul(frob_acc(a, (j - 1) as nat), sq, red82())
    }
}

/// Cubing is the third power.
proof fn lemma_cube_pow(x: Seq<nat>)
    requires
        x.len() == 82,
        reduced(x),
    ensures
        cube82(x) == fpow(x, 3, red82()),
{
    lemma_pmul_one(x, red82());
    assert(fpow(x, 1, red82()) == pmul(fpow(x, 0, red82()), x, red82()));
    assert(fpow(x, 2, red82()) == pmul(fpow(x, 1, red82()), x, red82()));
    assert(fpow(x, 3, red82()) == pmul(fpow(x, 2, red82()), x, red82()));
}

/// `t_k = a^(3^k)`.
proof fn lemma_frob_chain_pow(a: Seq<nat>, k: nat)
    requires
        a.len() == 82,
        reduced(a),
    ensures
        frob_chain(a, k) == fpow(a, pow(3, k) as nat, red82()),
        pow(3, k) > 0,
    decreases k,
{
    lemma_pow_positive(3, k);
    if k == 0 {
        lemma_pmul_one(a, red82());
        assert(pow(3, 0) == 1) by {
            lemma_pow1(3);
            lemma_pow_adds(3, 0, 1);
        }
        assert(fpow(a, 1, red82()) == pmul(fpow(a, 0, red82()), a, red82()));
    } else {
        let k1 = (k - 1) as nat;
        lemma_frob_chain_pow(a, k1);
        let e = pow(3, k1) as nat;
        lemma_fpow_shape(a, e, red82());
        lemma_cube_pow(fpow(a, e, red82()));
        lemma_fpow_mul(a, e, 3, red82());
        lemma_pow_adds(3, k1, 1);
        lemma_pow1(3);
    }
}

/// The accumulator after `j` factors is `a^(3^81 + 2 (3^j - 1))`.
proof fn lemma_frob_acc_pow(a: Seq<nat>, j: nat)
    requires
        a.len() == 82,
        reduced(a),
    ensures
        frob_acc(a, j) == fpow(a, (pow(3, 81) + 2 * (pow(3, j) - 1)) as nat, red82()),
        pow(3, j) > 0,
    decreases j,
{
    lemma_pow_positive(3, j);
    lemma_pow_positive(3, 81);
    if j == 0 {
        lemma_frob_chain_pow(a, 81);
        assert(pow(3, 0) == 1) by {
            lemma_pow1(3);
            lemma_pow_adds(3, 0, 1);
        }
    } else {
        let j1 = (j - 1) as nat;
        lemma_frob_acc_pow(a, j1);
        lemma_frob_chain_pow(a, j1);
        let e = pow(3, j1) as nat;
        let t = fpow(a, e, red82());
        lemma_fpow_shape(a, e, red82());
        lemma_cube_pow(t);
        assert(fpow(t, 4, red82()) == pmul(fpow(t, 3, red82()), t, red82()));
        lemma_fpow_mul(a, e, 4, red82());
        let acc_e = (pow(3, 81) + 2 * (pow(3, j1) - 1)) as nat;
        lemma_fpow_add(a, acc_e, e * 4, red82());
        lemma_pow_adds(3, j1, 1);
        lemma_pow1(3);
        assert(acc_e + e * 4 == pow(3, 81) + 2 * (pow(3, j) - 1));
    }
}

/// The coefficient sequences of a sequence of elements.
pub open spec fn f82t_polys(s: Seq<F82t>) -> Seq<Seq<nat>> {
    Seq::new(s.len(), |i: int| s[i].poly())
}

proof fn lemma_mask_bit(w: u128, i: u128)
    by (bit_vector)
    requires
        i < 82,
    ensures
        ((w & (1u128 << i)) != 0) == (((w >> i) & 1u128) == 1u128),
{
}

proof fn lemma_shift_in_bits(m: u128, l: u128, bm: u128, bl: u128, i: u128)
    by (bit_vector)
    requires
        i < 82,
        m & l == 0,
        m >> 82 == 0,
        l >> 82 == 0,
        bm <= 1,
        bl <= 1,
        !(bm == 1 && bl == 1),
        (m >> 81) & 1 == 0,
        (l >> 81) & 1 == 0,
    ensures
        (m << 1) + bm <= 0xffffffffffffffffffffffffffffffffu128,
        (l << 1) + bl <= 0xffffffffffffffffffffffffffffffffu128,
        (((m << 1) + bm) as u128) & (((l << 1) + bl) as u128) == 0,
        (((m << 1) + bm) as u128) >> 82 == 0,
        (((l << 1) + bl) as u128) >> 82 == 0,
        i == 0 ==> ((((m << 1) + bm) as u128) >> i) & 1 == bm,
        i == 0 ==> ((((l << 1) + bl) as u128) >> i) & 1 == bl,
        i > 0 ==> ((((m << 1) + bm) as u128) >> i) & 1 == (m >> ((i - 1) as u128)) & 1,
        i > 0 ==> ((((l << 1) + bl) as u128) >> i) & 1 == (l >> ((i - 1) as u128)) & 1,
{
}


/// The operations' results satisfy the laws of a commutative ring: addition
/// (coefficient-wise modulo three) is commutative and associative with neutral zero and
/// the negation as inverse, multiplication is commutative and associative with neutral
/// one, and it distributes over addition.
pub proof fn lemma_f82t_ring_laws(a: F82t, b: F82t, c: F82t)
    requires
        a.wf(),
        b.wf(),
        c.wf(),
    ensures
        padd(a.poly(), b.poly()) == padd(b.poly(), a.poly()),
        padd(padd(a.poly(), b.poly()), c.poly()) == padd(a.poly(), padd(b.poly(), c.poly())),
        padd(a.poly(), pzero(82)) == a.poly(),
        padd(a.poly(), pneg(a.poly())) == pzero(82),
        pmul(a.poly(), padd(b.poly(), c.poly()), red82()) == padd(pmul(a.poly(), b.poly(), red82()), pmul(a.poly(), c.poly(), red82())),
        pmul(a.poly(), b.poly(), red82()) == pmul(b.poly(), a.poly(), red82()),
        pmul(pmul(a.poly(), b.poly(), red82()), c.poly(), red82()) == pmul(
            a.poly(),
            pmul(b.poly(), c.poly(), red82()),
            red82(),
        ),
        pmul(a.poly(), crate::gf3poly::pmono(82, 0), red82()) == a.poly(),
{
    lemma_f82t_reduced(a);
    lemma_f82t_reduced(b);
    lemma_f82t_reduced(c);
    crate::gf3poly::lemma_padd_group(a.poly(), b.poly(), c.poly());
    crate::gf3poly::lemma_pmul_distributes(a.poly(), b.poly(), c.poly(), red82());
    crate::gf3poly::lemma_pmul_commutative(a.poly(), b.poly(), red82());
    crate::gf3poly::lemma_pmul_associative(a.poly(), b.poly(), c.poly(), red82());
    crate::gf3poly::lemma_pmul_mono(a.poly(), red82(), 0);
}


/// The embedding of GF(3): the element's two bits become the bits of the constant
/// coefficient.
impl From<F3> for F82t {
    fn from(pf: F3) -> (r: F82t) {
        F82t { msb: pf.msb as u128, lsb: pf.lsb as u128 }
    }
}

impl vstd::std_specs::convert::FromSpecImpl<F3> for F82t {
    open spec fn obeys_from_spec() -> bool {
        true
    }

    open spec fn from_spec(pf: F3) -> F82t {
        F82t { msb: pf.msb as u128, lsb: pf.lsb as u128 }
    }
}

} // verus!
