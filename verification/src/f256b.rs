//! GF(2^256) as GF(2)[x] / (x^256 + x^10 + x^5 + x^2 + 1): bit `i` of `low` is the
//! coefficient of `x^i`, and bit `i` of `high` that of `x^(128 + i)`.
use vstd::prelude::*;
use crate::bytes::{le_value, le_digits, lemma_le_bytes16, le_u128, u128_to_le, take16, concat16};
use crate::gf2poly::{
    bzero, bmono, badd, bxtimes, bxpow, bhorner, bmul, lemma_bmul_mono, bpow, lemma_bpow_len,
    lemma_bpow_add, lemma_bpow_mul, lemma_bpow_one,
};
use vstd::arithmetic::power2::{pow2, lemma_pow2_adds, lemma_pow2_pos, lemma2_to64};

verus! {

/// A field element of GF(2^256).
#[derive(Clone, Copy, Debug, PartialEq, Eq, Structural, Hash)]
pub struct F256b {
    /// Coefficients of `x^128` to `x^255`.
    pub high: u128,
    /// Coefficients of `x^0` to `x^127`.
    pub low: u128,
}

/// Bit `i` of `w` is set.
pub open spec fn bitb(w: u128, i: int) -> bool {
    (w >> (i as u128)) & 1u128 == 1u128
}

/// `x^256` is replaced by `x^10 + x^5 + x^2 + 1`.
pub open spec fn red256() -> Seq<bool> {
    Seq::new(256, |i: int| i == 0 || i == 2 || i == 5 || i == 10)
}

impl F256b {
    /// The 256 coefficients, constant term first.
    pub open spec fn poly(self) -> Seq<bool> {
        Seq::new(256, |i: int| if i < 128 { bitb(self.low, i) } else { bitb(self.high, i - 128) })
    }
}

/// Two words with the same bits are equal.
pub(crate) proof fn lemma_word_eq_by_bits(x: u128, y: u128)
    by (bit_vector)
    requires
        bitb(x, 0) == bitb(y, 0),
        bitb(x, 1) == bitb(y, 1),
        bitb(x, 2) == bitb(y, 2),
        bitb(x, 3) == bitb(y, 3),
        bitb(x, 4) == bitb(y, 4),
        bitb(x, 5) == bitb(y, 5),
        bitb(x, 6) == bitb(y, 6),
        bitb(x, 7) == bitb(y, 7),
        bitb(x, 8) == bitb(y, 8),
        bitb(x, 9) == bitb(y, 9),
        bitb(x, 10) == bitb(y, 10),
        bitb(x, 11) == bitb(y, 11),
        bitb(x, 12) == bitb(y, 12),
        bitb(x, 13) == bitb(y, 13),
        bitb(x, 14) == bitb(y, 14),
        bitb(x, 15) == bitb(y, 15),
        bitb(x, 16) == bitb(y, 16),
        bitb(x, 17) == bitb(y, 17),
        bitb(x, 18) == bitb(y, 18),
        bitb(x, 19) == bitb(y, 19),
        bitb(x, 20) == bitb(y, 20),
        bitb(x, 21) == bitb(y, 21),
        bitb(x, 22) == bitb(y, 22),
        bitb(x, 23) == bitb(y, 23),
        bitb(x, 24) == bitb(y, 24),
        bitb(x, 25) == bitb(y, 25),
        bitb(x, 26) == bitb(y, 26),
        bitb(x, 27) == bitb(y, 27),
        bitb(x, 28) == bitb(y, 28),
        bitb(x, 29) == bitb(y, 29),
        bitb(x, 30) == bitb(y, 30),
        bitb(x, 31) == bitb(y, 31),
        bitb(x, 32) == bitb(y, 32),
        bitb(x, 33) == bitb(y, 33),
        bitb(x, 34) == bitb(y, 34),
        bitb(x, 35) == bitb(y, 35),
        bitb(x, 36) == bitb(y, 36),
        bitb(x, 37) == bitb(y, 37),
        bitb(x, 38) == bitb(y, 38),
        bitb(x, 39) == bitb(y, 39),
        bitb(x, 40) == bitb(y, 40),
        bitb(x, 41) == bitb(y, 41),
        bitb(x, 42) == bitb(y, 42),
        bitb(x, 43) == bitb(y, 43),
        bitb(x, 44) == bitb(y, 44),
        bitb(x, 45) == bitb(y, 45),
        bitb(x, 46) == bitb(y, 46),
        bitb(x, 47) == bitb(y, 47),
        bitb(x, 48) == bitb(y, 48),
        bitb(x, 49) == bitb(y, 49),
        bitb(x, 50) == bitb(y, 50),
        bitb(x, 51) == bitb(y, 51),
        bitb(x, 52) == bitb(y, 52),
        bitb(x, 53) == bitb(y, 53),
        bitb(x, 54) == bitb(y, 54),
        bitb(x, 55) == bitb(y, 55),
        bitb(x, 56) == bitb(y, 56),
        bitb(x, 57) == bitb(y, 57),
        bitb(x, 58) == bitb(y, 58),
        bitb(x, 59) == bitb(y, 59),
        bitb(x, 60) == bitb(y, 60),
        bitb(x, 61) == bitb(y, 61),
        bitb(x, 62) == bitb(y, 62),
        bitb(x, 63) == bitb(y, 63),
        bitb(x, 64) == bitb(y, 64),
        bitb(x, 65) == bitb(y, 65),
        bitb(x, 66) == bitb(y, 66),
        bitb(x, 67) == bitb(y, 67),
        bitb(x, 68) == bitb(y, 68),
        bitb(x, 69) == bitb(y, 69),
        bitb(x, 70) == bitb(y, 70),
        bitb(x, 71) == bitb(y, 71),
        bitb(x, 72) == bitb(y, 72),
        bitb(x, 73) == bitb(y, 73),
        bitb(x, 74) == bitb(y, 74),
        bitb(x, 75) == bitb(y, 75),
        bitb(x, 76) == bitb(y, 76),
        bitb(x, 77) == bitb(y, 77),
        bitb(x, 78) == bitb(y, 78),
        bitb(x, 79) == bitb(y, 79),
        bitb(x, 80) == bitb(y, 80),
        bitb(x, 81) == bitb(y, 81),
        bitb(x, 82) == bitb(y, 82),
        bitb(x, 83) == bitb(y, 83),
        bitb(x, 84) == bitb(y, 84),
        bitb(x, 85) == bitb(y, 85),
        bitb(x, 86) == bitb(y, 86),
        bitb(x, 87) == bitb(y, 87),
        bitb(x, 88) == bitb(y, 88),
        bitb(x, 89) == bitb(y, 89),
        bitb(x, 90) == bitb(y, 90),
        bitb(x, 91) == bitb(y, 91),
        bitb(x, 92) == bitb(y, 92),
        bitb(x, 93) == bitb(y, 93),
        bitb(x, 94) == bitb(y, 94),
        bitb(x, 95) == bitb(y, 95),
        bitb(x, 96) == bitb(y, 96),
        bitb(x, 97) == bitb(y, 97),
        bitb(x, 98) == bitb(y, 98),
        bitb(x, 99) == bitb(y, 99),
        bitb(x, 100) == bitb(y, 100),
        bitb(x, 101) == bitb(y, 101),
        bitb(x, 102) == bitb(y, 102),
        bitb(x, 103) == bitb(y, 103),
        bitb(x, 104) == bitb(y, 104),
        bitb(x, 105) == bitb(y, 105),
        bitb(x, 106) == bitb(y, 106),
        bitb(x, 107) == bitb(y, 107),
        bitb(x, 108) == bitb(y, 108),
        bitb(x, 109) == bitb(y, 109),
        bitb(x, 110) == bitb(y, 110),
        bitb(x, 111) == bitb(y, 111),
        bitb(x, 112) == bitb(y, 112),
        bitb(x, 113) == bitb(y, 113),
        bitb(x, 114) == bitb(y, 114),
        bitb(x, 115) == bitb(y, 115),
        bitb(x, 116) == bitb(y, 116),
        bitb(x, 117) == bitb(y, 117),
        bitb(x, 118) == bitb(y, 118),
        bitb(x, 119) == bitb(y, 119),
        bitb(x, 120) == bitb(y, 120),
        bitb(x, 121) == bitb(y, 121),
        bitb(x, 122) == bitb(y, 122),
        bitb(x, 123) == bitb(y, 123),
        bitb(x, 124) == bitb(y, 124),
        bitb(x, 125) == bitb(y, 125),
        bitb(x, 126) == bitb(y, 126),
        bitb(x, 127) == bitb(y, 127),
    ensures
        x == y,
{
}

/// Elements with the same polynomial are equal.
pub proof fn lemma_poly_injective(a: F256b, b: F256b)
    requires
        a.poly() == b.poly(),
    ensures
        a == b,
{
    assert forall|i: int| 0 <= i < 128 implies #[trigger] bitb(a.low, i) == bitb(b.low, i) by {
        assert(a.poly()[i] == bitb(a.low, i));
        assert(b.poly()[i] == bitb(b.low, i));
        assert(a.poly()[i] == b.poly()[i]);
    }
    assert forall|i: int| 0 <= i < 128 implies #[trigger] bitb(a.high, i) == bitb(b.high, i) by {
        assert(a.poly()[i + 128] == bitb(a.high, i));
        assert(b.poly()[i + 128] == bitb(b.high, i));
        assert(a.poly()[i + 128] == b.poly()[i + 128]);
    }
    lemma_word_eq_by_bits(a.low, b.low);
    lemma_word_eq_by_bits(a.high, b.high);
}

proof fn lemma_xor_bits(a: u128, b: u128, i: u128)
    by (bit_vector)
    requires
        i < 128,
    ensures
        (((a ^ b) >> i) & 1 == 1) == (((a >> i) & 1 == 1) != ((b >> i) & 1 == 1)),
{
}

/// Single bits of a 128-bit word: constants, a mask of one bit, and setting one bit.
pub proof fn lemma_word_bits(x: u128, i: u128, t: u128)
    by (bit_vector)
    requires
        i < 128,
        t < 128,
    ensures
        ((0u128 >> t) & 1 == 1) == false,
        ((1u128 >> t) & 1 == 1) == (t == 0),
        ((2u128 >> t) & 1 == 1) == (t == 1),
        ((x & (1u128 << i)) != 0) == ((x >> i) & 1 == 1),
        (((x | (1u128 << i)) >> t) & 1u128 == 1u128) == (((x >> t) & 1u128 == 1u128) || t == i),
{
}

proof fn lemma_shift_bits(high: u128, low: u128, top: bool, i: u128)
    by (bit_vector)
    requires
        i < 128,
        top == ((high >> 127) & 1 == 1),
    ensures
        i == 0 ==> ((((high << 1) | (low >> 127)) >> i) & 1 == 1) == ((low >> 127) & 1 == 1),
        i > 0 ==> ((((high << 1) | (low >> 127)) >> i) & 1 == 1) == ((high >> ((i - 1) as u128)) & 1 == 1),
        i == 0 ==> (((low << 1) >> i) & 1 == 1) == false,
        i > 0 ==> (((low << 1) >> i) & 1 == 1) == ((low >> ((i - 1) as u128)) & 1 == 1),
        (((0x425u128 >> i) & 1) == 1) == (i == 0 || i == 2 || i == 5 || i == 10),
        ((((low << 1) ^ 0x425u128) >> i) & 1 == 1) == ((((low << 1) >> i) & 1 == 1) != (i == 0 || i == 2 || i == 5 || i == 10)),
{
}

/// The sum of two elements computed on their words: exclusive or.
pub open spec fn sum_words(a: F256b, b: F256b) -> F256b {
    F256b { high: a.high ^ b.high, low: a.low ^ b.low }
}

/// The word-level sum adds the coefficients modulo two.
pub proof fn lemma_sum_words(a: F256b, b: F256b)
    ensures
        sum_words(a, b).poly() == badd(a.poly(), b.poly()),
{
    let r = sum_words(a, b);
    assert forall|i: int| 0 <= i < 256 implies #[trigger] r.poly()[i] == badd(a.poly(), b.poly())[i] by {
        if i < 128 {
            lemma_xor_bits(a.low, b.low, i as u128);
        } else {
            lemma_xor_bits(a.high, b.high, (i - 128) as u128);
        }
    }
    assert(r.poly() =~= badd(a.poly(), b.poly()));
}

impl F256b {
    /// Zero.
    pub fn zero() -> (r: F256b)
        ensures
            r.poly() == bzero(256),
    {
        let r = F256b { high: 0, low: 0 };
        proof {
            assert forall|i: int| 0 <= i < 256 implies #[trigger] r.poly()[i] == bzero(256)[i] by {
                let iu = (if i < 128 { i } else { i - 128 }) as u128;
                lemma_word_bits(0, 0, iu);
            }
            assert(r.poly() =~= bzero(256));
        }
        r
    }

    /// One.
    pub fn one() -> (r: F256b)
        ensures
            r.poly() == bmono(256, 0),
    {
        let r = F256b { high: 0, low: 1 };
        proof {
            assert forall|i: int| 0 <= i < 256 implies #[trigger] r.poly()[i] == bmono(256, 0)[i] by {
                let iu = (if i < 128 { i } else { i - 128 }) as u128;
                lemma_word_bits(0, 0, iu);
            }
            assert(r.poly() =~= bmono(256, 0));
        }
        r
    }

    /// The generator `x`.
    pub fn generator() -> (r: F256b)
        ensures
            r.poly() == bmono(256, 1),
    {
        let r = F256b { high: 0, low: 2 };
        proof {
            assert forall|i: int| 0 <= i < 256 implies #[trigger] r.poly()[i] == bmono(256, 1)[i] by {
                let iu = (if i < 128 { i } else { i - 128 }) as u128;
                lemma_word_bits(0, 0, iu);
            }
            assert(r.poly() =~= bmono(256, 1));
        }
        r
    }

    /// Field addition, which is exclusive or of the coefficients.
    pub fn add_assign(&mut self, other: &F256b)
        ensures
            final(self).poly() == badd(old(self).poly(), other.poly()),
            *final(self) == sum_words(*old(self), *other),
    {
        let ghost a = *self;
        self.high = self.high ^ other.high;
        self.low = self.low ^ other.low;
        proof {
            lemma_sum_words(a, *other);
        }
    }

    /// Field subtraction, which is the same as addition.
    pub fn sub_assign(&mut self, other: &F256b)
        ensures
            final(self).poly() == badd(old(self).poly(), other.poly()),
    {
        self.add_assign(other);
    }

    /// The sum of two elements.
    pub fn add(&self, other: &F256b) -> (r: F256b)
        ensures
            r.poly() == badd(self.poly(), other.poly()),
            r == sum_words(*self, *other),
    {
        let mut r = *self;
        r.add_assign(other);
        r
    }

    /// Multiplies by `x`: the coefficients move up one place, and a coefficient falling
    /// off the top comes back as `x^10 + x^5 + x^2 + 1`.
    pub fn shift_left_once(&mut self)
        ensures
            final(self).poly() == bxtimes(old(self).poly(), red256()),
    {
        let ghost a = *self;
        let top = (self.high >> 127) & 1 == 1;
        let c2 = self.high << 1 | self.low >> 127;
        let mut c3 = self.low << 1;
        if top {
            c3 = c3 ^ 0x425;
        }
        self.high = c2;
        self.low = c3;
        proof {
            assert(a.poly()[255] == top);
            assert forall|i: int| 0 <= i < 256 implies #[trigger] self.poly()[i] == bxtimes(a.poly(), red256())[i] by {
                if i < 128 {
                    lemma_shift_bits(a.high, a.low, top, i as u128);
                    if i > 0 {
                        assert(a.poly()[i - 1] == bitb(a.low, i - 1));
                    }
                } else {
                    lemma_shift_bits(a.high, a.low, top, (i - 128) as u128);
                    if i == 128 {
                        assert(a.poly()[127] == bitb(a.low, 127));
                    } else {
                        assert(a.poly()[i - 1] == bitb(a.high, i - 129));
                    }
                }
            }
            assert(self.poly() =~= bxtimes(a.poly(), red256()));
        }
    }

    /// Field multiplication, by Horner's rule over the bits of `rhs` from the top.
    pub fn mul_assign(&mut self, rhs: &F256b)
        ensures
            final(self).poly() == bmul(old(self).poly(), rhs.poly(), red256()),
    {
        let a = *self;
        let mut acc = F256b::zero();
        let mut i: u32 = 256;
        while i > 0
            invariant
                i <= 256,
                acc.poly() == bhorner(a.poly(), rhs.poly(), red256(), i as nat),
            decreases i,
        {
            i = i - 1;
            acc.shift_left_once();
            let bit = if i < 128 {
                (rhs.low >> i) & 1 == 1
            } else {
                (rhs.high >> (i - 128)) & 1 == 1
            };
            assert(bit == rhs.poly()[i as int]);
            if bit {
                acc.add_assign(&a);
            }
        }
        *self = acc;
    }

    /// The product of two elements.
    pub fn mul(&self, rhs: &F256b) -> (r: F256b)
        ensures
            r.poly() == bmul(self.poly(), rhs.poly(), red256()),
    {
        let mut r = *self;
        r.mul_assign(rhs);
        r
    }

    /// The square of the element.
    pub fn square(&self) -> (r: F256b)
        ensures
            r.poly() == bmul(self.poly(), self.poly(), red256()),
    {
        self.mul(self)
    }

    /// The product with `x^pow`, for `0 < pow < 256`; the element itself is unchanged.
    pub fn pow_mul(&mut self, pow: usize) -> (r: F256b)
        requires
            0 < pow < 256,
        ensures
            *final(self) == *old(self),
            r.poly() == bxpow(old(self).poly(), red256(), pow as nat),
            r.poly() == bmul(old(self).poly(), bmono(256, pow as int), red256()),
    {
        let mut r = *self;
        let mut k: usize = 0;
        while k < pow
            invariant
                k <= pow,
                r.poly() == bxpow(self.poly(), red256(), k as nat),
            decreases pow - k,
        {
            r.shift_left_once();
            k = k + 1;
        }
        proof {
            lemma_bmul_mono(self.poly(), red256(), pow as nat);
        }
        r
    }

    /// The 32-byte encoding: the sixteen little-endian bytes of `high`, then those of `low`.
    pub open spec fn encoding(self) -> Seq<u8> {
        le_digits(self.high as nat, 16) + le_digits(self.low as nat, 16)
    }

    /// The 32-byte encoding: `high` then `low`, each little-endian.
    pub fn to_bytes(&self) -> (r: [u8; 32])
        ensures
            r@ == self.encoding(),
            le_value(r@.subrange(0, 16)) == self.high,
            le_value(r@.subrange(16, 32)) == self.low,
    {
        let h = u128_to_le(self.high);
        let l = u128_to_le(self.low);
        let r = concat16(&h, &l);
        assert(r@.subrange(0, 16) =~= h@);
        assert(r@.subrange(16, 32) =~= l@);
        proof {
            lemma_le_bytes16(self.high, h@);
            lemma_le_bytes16(self.low, l@);
            assert(r@ =~= h@ + l@);
        }
        r
    }

    /// Decodes the 32-byte encoding; every byte string decodes.
    pub fn from_bytes(bytes: &[u8; 32]) -> (r: F256b)
        ensures
            r.high == le_value(bytes@.subrange(0, 16)),
            r.low == le_value(bytes@.subrange(16, 32)),
    {
        let h = take16(bytes, 0);
        let l = take16(bytes, 16);
        F256b { high: le_u128(&h), low: le_u128(&l) }
    }

    /// The element whose two halves both hold the sixteen bytes, read little-endian.
    pub fn from_uniform_bytes(x: &[u8; 16]) -> (r: F256b)
        ensures
            r.high == le_value(x@),
            r.low == le_value(x@),
    {
        let low = le_u128(x);
        F256b { high: low, low }
    }

    /// A random element: 32 random bytes, the first sixteen for `high`.
    pub fn random(rng: &mut rand::rngs::StdRng) -> (r: F256b) {
        let bytes = crate::rng::rng_fill_32(rng);
        F256b::from_bytes(&bytes)
    }

    /// Little-endian bits: the 128 bits of `low`, then those of `high`.
    pub fn bit_decomposition(&self) -> (bits: Vec<bool>)
        ensures
            bits@ == self.poly(),
    {
        let mut bits: Vec<bool> = Vec::new();
        let mut i: u32 = 0;
        while i < 256
            invariant
                i <= 256,
                bits.len() == i,
                forall|k: int| 0 <= k < i ==> bits[k] == self.poly()[k],
            decreases 256 - i,
        {
            let b = if i < 128 {
                (self.low >> i) & 1 == 1
            } else {
                (self.high >> (i - 128)) & 1 == 1
            };
            bits.push(b);
            i = i + 1;
        }
        assert(bits@ =~= self.poly());
        bits
    }

    /// Constant-time equality: 1 when the elements are equal, 0 otherwise.
    pub fn ct_eq(&self, other: &F256b) -> (r: u8)
        ensures
            r == (if *self == *other { 1u8 } else { 0u8 }),
    {
        crate::ct::choice_and(crate::ct::ct_eq_u128(self.high, other.high), crate::ct::ct_eq_u128(self.low, other.low))
    }

    /// Constant-time selection: `a` when `choice` is 0, `b` when it is 1.
    pub fn conditional_select(a: &F256b, b: &F256b, choice: u8) -> (r: F256b)
        requires
            choice <= 1,
        ensures
            r == (if choice == 0 { *a } else { *b }),
    {
        F256b { high: crate::ct::conditional_select_u128(a.high, b.high, choice), low: crate::ct::conditional_select_u128(a.low, b.low, choice) }
    }

    /// The 256 coefficients of `fe` as elements of GF(2), constant term first.
    pub fn decompose_superfield(fe: &F256b) -> (components: Vec<bool>)
        ensures
            components@ == fe.poly(),
    {
        let mut components: Vec<bool> = Vec::new();
        let mut i: u32 = 0;
        while i < 128
            invariant
                i <= 128,
                components.len() == i,
                forall|k: int| 0 <= k < i ==> components[k] == fe.poly()[k],
            decreases 128 - i,
        {
            proof {
                lemma_word_bits(fe.low, i as u128, 0);
            }
            components.push((fe.low & (1u128 << i)) != 0);
            i = i + 1;
        }
        let mut i: u32 = 0;
        while i < 128
            invariant
                i <= 128,
                components.len() == 128 + i,
                forall|k: int| 0 <= k < 128 + i ==> components[k] == fe.poly()[k],
            decreases 128 - i,
        {
            proof {
                lemma_word_bits(fe.high, i as u128, 0);
            }
            components.push((fe.high & (1u128 << i)) != 0);
            i = i + 1;
        }
        assert(components@ =~= fe.poly());
        components
    }

    /// The element with the 256 given coefficients, constant term first.
    pub fn form_superfield(components: &Vec<bool>) -> (r: F256b)
        requires
            components.len() == 256,
        ensures
            r.poly() == components@,
    {
        let mut high = 0u128;
        let mut low = 0u128;
        assert forall|t: int| 0 <= t < 128 implies !(#[trigger] bitb(0u128, t)) by {
            lemma_word_bits(0, 0, t as u128);
        }
        let mut i: u32 = 0;
        while i < 128
            invariant
                i <= 128,
                components.len() == 256,
                forall|t: int| 0 <= t < 128 ==> #[trigger] bitb(low, t) == (t < i && components@[t]),
                forall|t: int| 0 <= t < 128 ==> #[trigger] bitb(high, t) == (t < i && components@[128 + t]),
            decreases 128 - i,
        {
            let ghost low0 = low;
            let ghost high0 = high;
            if components[i as usize] {
                low = low | (1u128 << i);
            }
            if components[128 + i as usize] {
                high = high | (1u128 << i);
            }
            proof {
                assert forall|t: int| 0 <= t < 128 implies #[trigger] bitb(low, t) == (t < i + 1 && components@[t]) by {
                    assert(bitb(low0, t) == (t < i && components@[t]));
                    lemma_word_bits(low0, i as u128, t as u128);
                }
                assert forall|t: int| 0 <= t < 128 implies #[trigger] bitb(high, t) == (t < i + 1 && components@[128 + t]) by {
                    assert(bitb(high0, t) == (t < i && components@[128 + t]));
                    lemma_word_bits(high0, i as u128, t as u128);
                }
            }
            i = i + 1;
        }
        let r = F256b { high, low };
        assert(r.poly() =~= components@);
        r
    }

    /// `self^(2^k)`, by squaring `k` times.
    fn pow2k(x: F256b, k: u32) -> (r: F256b)
        ensures
            r.poly() == sq_iter(x.poly(), k as nat),
    {
        let mut y = x;
        let mut j: u32 = 0;
        while j < k
            invariant
                j <= k,
                y.poly() == sq_iter(x.poly(), j as nat),
            decreases k - j,
        {
            y = y.square();
            j = j + 1;
        }
        y
    }

    /// The multiplicative inverse, `self^(2^256 - 2)`, by an addition chain: with
    /// `x_k = self^(2^k - 1)`, doubling `x_{2k} = x_k^(2^k) * x_k` and stepping
    /// `x_{k+1} = x_k^2 * self` reach `x_255`, whose square is the result.
    pub fn inverse(&self) -> (r: F256b)
        ensures
            r.poly() == bpow(self.poly(), (pow2(256) - 2) as nat, red256()),
    {
        proof {
            lemma_inv_chain_pow(self.poly());
        }
        let a = *self;
        let x1 = a;
        let x2 = F256b::pow2k(x1, 1).mul(&x1);
        let x3 = x2.square().mul(&a);
        let x6 = F256b::pow2k(x3, 3).mul(&x3);
        let x7 = x6.square().mul(&a);
        let x14 = F256b::pow2k(x7, 7).mul(&x7);
        let x15 = x14.square().mul(&a);
        let x30 = F256b::pow2k(x15, 15).mul(&x15);
        let x31 = x30.square().mul(&a);
        let x62 = F256b::pow2k(x31, 31).mul(&x31);
        let x63 = x62.square().mul(&a);
        let x126 = F256b::pow2k(x63, 63).mul(&x63);
        let x127 = x126.square().mul(&a);
        let x254 = F256b::pow2k(x127, 127).mul(&x127);
        let x255 = x254.square().mul(&a);
        x255.square()
    }
}

/// Squaring `k` times.
spec fn sq_iter(a: Seq<bool>, k: nat) -> Seq<bool>
    decreases k,
{
    if k == 0 {
        a
    } else {
        let y = sq_iter(a, (k - 1) as nat);
        bmul(y, y, red256())
    }
}

/// `x_k^(2^k) * x_k`.
spec fn chain_double(xk: Seq<bool>, k: nat) -> Seq<bool> {
    bmul(sq_iter(xk, k), xk, red256())
}

/// `x_k^2 * a`.
spec fn chain_step(xk: Seq<bool>, a: Seq<bool>) -> Seq<bool> {
    bmul(bmul(xk, xk, red256()), a, red256())
}

/// The addition chain for `a^(2^256 - 2)`.
spec fn inv_chain(a: Seq<bool>) -> Seq<bool> {
    let x2 = chain_double(a, 1);
    let x3 = chain_step(x2, a);
    let x6 = chain_double(x3, 3);
    let x7 = chain_step(x6, a);
    let x14 = chain_double(x7, 7);
    let x15 = chain_step(x14, a);
    let x30 = chain_double(x15, 15);
    let x31 = chain_step(x30, a);
    let x62 = chain_double(x31, 31);
    let x63 = chain_step(x62, a);
    let x126 = chain_double(x63, 63);
    let x127 = chain_step(x126, a);
    let x254 = chain_double(x127, 127);
    let x255 = chain_step(x254, a);
    bmul(x255, x255, red256())
}


/// Squaring `k` times is the power `2^k`.
proof fn lemma_sq_iter_pow(a: Seq<bool>, k: nat)
    requires
        a.len() == 256,
    ensures
        sq_iter(a, k) == bpow(a, pow2(k), red256()),
    decreases k,
{
    if k == 0 {
        lemma_bpow_one(a, red256());
        lemma2_to64();
    } else {
        let k1 = (k - 1) as nat;
        lemma_sq_iter_pow(a, k1);
        lemma_bpow_add(a, pow2(k1), pow2(k1), red256());
        lemma_pow2_adds(k1, 1);
        lemma2_to64();
    }
}

/// Doubling: `x_k = a^(2^k - 1)` gives `x_k^(2^k) * x_k = a^(2^(2k) - 1)`.
proof fn lemma_chain_double(a: Seq<bool>, xk: Seq<bool>, k: nat)
    requires
        a.len() == 256,
        xk == bpow(a, (pow2(k) - 1) as nat, red256()),
    ensures
        chain_double(xk, k) == bpow(a, (pow2(2 * k) - 1) as nat, red256()),
{
    let e = (pow2(k) - 1) as nat;
    lemma_pow2_pos(k);
    lemma_bpow_len(a, e, red256());
    lemma_sq_iter_pow(xk, k);
    lemma_bpow_mul(a, e, pow2(k), red256());
    lemma_bpow_add(a, e * pow2(k), e, red256());
    lemma_pow2_adds(k, k);
    assert(e * pow2(k) + e == pow2(k) * pow2(k) - 1) by (nonlinear_arith)
        requires
            e == pow2(k) - 1,
    ;
}

/// Stepping: `x_k = a^(2^k - 1)` gives `x_k^2 * a = a^(2^(k+1) - 1)`.
proof fn lemma_chain_step(a: Seq<bool>, xk: Seq<bool>, k: nat)
    requires
        a.len() == 256,
        xk == bpow(a, (pow2(k) - 1) as nat, red256()),
    ensures
        chain_step(xk, a) == bpow(a, (pow2(k + 1) - 1) as nat, red256()),
{
    let e = (pow2(k) - 1) as nat;
    lemma_pow2_pos(k);
    lemma_bpow_add(a, e, e, red256());
    lemma_bpow_one(a, red256());
    lemma_bpow_add(a, e + e, 1, red256());
    lemma_pow2_adds(k, 1);
    lemma2_to64();
}

/// The addition chain computes `a^(2^256 - 2)`.
proof fn lemma_inv_chain_pow(a: Seq<bool>)
    requires
        a.len() == 256,
    ensures
        inv_chain(a) == bpow(a, (pow2(256) - 2) as nat, red256()),
{
    lemma2_to64();
    lemma_bpow_one(a, red256());
    let x2 = chain_double(a, 1);
    lemma_chain_double(a, a, 1);
    let x3 = chain_step(x2, a);
    lemma_chain_step(a, x2, 2);
    let x6 = chain_double(x3, 3);
    lemma_chain_double(a, x3, 3);
    let x7 = chain_step(x6, a);
    lemma_chain_step(a, x6, 6);
    let x14 = chain_double(x7, 7);
    lemma_chain_double(a, x7, 7);
    let x15 = chain_step(x14, a);
    lemma_chain_step(a, x14, 14);
    let x30 = chain_double(x15, 15);
    lemma_chain_double(a, x15, 15);
    let x31 = chain_step(x30, a);
    lemma_chain_step(a, x30, 30);
    let x62 = chain_double(x31, 31);
    lemma_chain_double(a, x31, 31);
    let x63 = chain_step(x62, a);
    lemma_chain_step(a, x62, 62);
    let x126 = chain_double(x63, 63);
    lemma_chain_double(a, x63, 63);
    let x127 = chain_step(x126, a);
    lemma_chain_step(a, x126, 126);
    let x254 = chain_double(x127, 127);
    lemma_chain_double(a, x127, 127);
    let x255 = chain_step(x254, a);
    lemma_chain_step(a, x254, 254);
    let e = (pow2(255) - 1) as nat;
    lemma_pow2_pos(255);
    lemma_bpow_add(a, e, e, red256());
    lemma_pow2_adds(255, 1);
}

/// The operations' results satisfy the laws of a commutative ring of characteristic two:
/// addition is commutative and associative with neutral zero, every element is its own
/// negative, multiplication is commutative and associative with neutral one, and it
/// distributes over addition.
pub proof fn lemma_f256b_ring_laws(a: F256b, b: F256b, c: F256b)
    ensures
        badd(a.poly(), b.poly()) == badd(b.poly(), a.poly()),
        badd(badd(a.poly(), b.poly()), c.poly()) == badd(a.poly(), badd(b.poly(), c.poly())),
        badd(a.poly(), bzero(256)) == a.poly(),
        badd(a.poly(), a.poly()) == bzero(256),
        bmul(a.poly(), b.poly(), red256()) == bmul(b.poly(), a.poly(), red256()),
        bmul(bmul(a.poly(), b.poly(), red256()), c.poly(), red256()) == bmul(
            a.poly(),
            bmul(b.poly(), c.poly(), red256()),
            red256(),
        ),
        bmul(a.poly(), bmono(256, 0), red256()) == a.poly(),
        bmul(a.poly(), badd(b.poly(), c.poly()), red256()) == badd(bmul(a.poly(), b.poly(), red256()), bmul(a.poly(), c.poly(), red256())),
{
    crate::gf2poly::lemma_badd_group(a.poly(), b.poly(), c.poly());
    crate::gf2poly::lemma_bmul_distributes(a.poly(), b.poly(), c.poly(), red256());
    crate::gf2poly::lemma_bmul_commutative(a.poly(), b.poly(), red256());
    crate::gf2poly::lemma_bmul_associative(a.poly(), b.poly(), c.poly(), red256());
    crate::gf2poly::lemma_bmul_zero_one(a.poly(), b.poly(), red256());
}


/// The embedding of GF(2), a bit, as zero or one.
impl From<bool> for F256b {
    fn from(bit: bool) -> (r: F256b) {
        F256b::conditional_select(
            &F256b { high: 0, low: 0 },
            &F256b { high: 0, low: 1 },
            if bit { 1u8 } else { 0u8 },
        )
    }
}

impl vstd::std_specs::convert::FromSpecImpl<bool> for F256b {
    open spec fn obeys_from_spec() -> bool {
        true
    }

    open spec fn from_spec(bit: bool) -> F256b {
        F256b { high: 0, low: if bit { 1 } else { 0 } }
    }
}

} // verus!
