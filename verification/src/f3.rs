//! The prime field GF(3), each element stored as two bits.
use vstd::prelude::*;
use vstd::arithmetic::div_mod::*;
use vstd::arithmetic::mul::*;

verus! {

/// Error returned when an integer is not below the modulus of the target field.
#[derive(Clone, Copy, Debug, PartialEq, Eq, Structural)]
pub struct BiggerThanModulus;

/// A field element of GF(3): the value is `2 * msb + lsb`.
#[derive(Clone, Copy, Debug, PartialEq, Eq, Structural, Hash)]
pub struct F3 {
    /// Most significant bit.
    pub msb: u8,
    /// Least significant bit.
    pub lsb: u8,
}

/// The characteristic of the field.
pub const MODULUS: u8 = 3;

impl F3 {
    /// Zero.
    pub fn zero() -> (r: F3)
        ensures
            r.wf(),
            r.val() == 0,
    {
        F3 { msb: 0, lsb: 0 }
    }

    /// One.
    pub fn one() -> (r: F3)
        ensures
            r.wf(),
            r.val() == 1,
    {
        F3 { msb: 0, lsb: 1 }
    }

    /// Two, which generates the multiplicative group.
    pub fn generator() -> (r: F3)
        ensures
            r.wf(),
            r.val() == 2,
    {
        F3 { msb: 1, lsb: 0 }
    }

    /// The two bits encode 0, 1 or 2.
    pub open spec fn wf(self) -> bool {
        ||| (self.msb == 0 && self.lsb == 0)
        ||| (self.msb == 0 && self.lsb == 1)
        ||| (self.msb == 1 && self.lsb == 0)
    }

    /// The integer in 0..3 that the element stands for.
    pub open spec fn val(self) -> nat {
        (2 * self.msb + self.lsb) as nat
    }

    /// The canonical encoding of `v % 3`.
    pub open spec fn of_nat(v: nat) -> F3 {
        F3 { msb: ((v % 3) / 2) as u8, lsb: ((v % 3) % 2) as u8 }
    }
}

/// A well-formed element is determined by its value.
pub proof fn lemma_f3_val_injective(a: F3, b: F3)
    requires
        a.wf(),
        b.wf(),
        a.val() == b.val(),
    ensures
        a == b,
{
}

/// Encoding a value and reading it back gives the value modulo three.
pub proof fn lemma_f3_of_nat(v: nat)
    ensures
        F3::of_nat(v).wf(),
        F3::of_nat(v).val() == v % 3,
{
}

/// GF(3) is a commutative ring under the operations' results: addition and
/// multiplication modulo three are commutative and associative, multiplication
/// distributes over addition, and 0 and 1 are neutral.
pub proof fn lemma_f3_ring_laws(a: F3, b: F3, c: F3)
    requires
        a.wf(),
        b.wf(),
        c.wf(),
    ensures
        (a.val() + b.val()) % 3 == (b.val() + a.val()) % 3,
        ((a.val() + b.val()) % 3 + c.val()) % 3 == (a.val() + (b.val() + c.val()) % 3) % 3,
        (a.val() * b.val()) % 3 == (b.val() * a.val()) % 3,
        ((a.val() * b.val()) % 3 * c.val()) % 3 == (a.val() * ((b.val() * c.val()) % 3)) % 3,
        (a.val() * ((b.val() + c.val()) % 3)) % 3 == ((a.val() * b.val()) % 3 + (a.val() * c.val()) % 3) % 3,
        (a.val() + 0) % 3 == a.val(),
        (a.val() * 1) % 3 == a.val(),
{
    let x = a.val() as int;
    let y = b.val() as int;
    let z = c.val() as int;
    assert(x < 3 && y < 3 && z < 3);
    lemma_add_mod_noop(x + y, z, 3);
    lemma_add_mod_noop(x, y + z, 3);
    lemma_mod_twice(x, 3);
    lemma_mod_twice(z, 3);
    lemma_small_mod(x as nat, 3);
    lemma_small_mod(z as nat, 3);
    lemma_mul_is_commutative(x, y);
    lemma_mul_mod_noop_left(x * y, z, 3);
    lemma_mul_mod_noop_right(x, y * z, 3);
    lemma_mul_is_associative(x, y, z);
    lemma_mul_mod_noop_right(x, y + z, 3);
    lemma_mul_is_distributive_add(x, y, z);
    lemma_add_mod_noop(x * y, x * z, 3);
    lemma_mul_basics(x);
}

/// The products of the field's values, by cases.
pub proof fn lemma_f3_mul_cases(a: F3, b: F3)
    requires
        a.wf(),
        b.wf(),
    ensures
        a.val() == 0 ==> (a.val() * b.val()) % 3 == 0,
        a.val() == 1 ==> (a.val() * b.val()) % 3 == b.val(),
        a.val() == 2 ==> (a.val() * b.val()) % 3 == (2 * b.val()) % 3,
        (a.val() * b.val()) % 3 == (b.val() * a.val()) % 3,
        a.val() == 2 && b.val() == 2 ==> (a.val() * b.val()) % 3 == 1,
        a.val() == 1 && b.val() == 1 ==> (a.val() * b.val()) % 3 == 1,
{
    if a.val() == 0 {
        assert(a.val() * b.val() == 0);
    } else if a.val() == 1 {
        assert(a.val() * b.val() == b.val());
    } else {
        assert(a.val() * b.val() == 2 * b.val());
    }
    assert(a.val() * b.val() == b.val() * a.val()) by (nonlinear_arith);
}

impl F3 {
    /// Converts an integer below three; larger integers are refused.
    pub fn try_from(value: u8) -> (r: Result<F3, BiggerThanModulus>)
        ensures
            value < 3 <==> r is Ok,
            r matches Ok(x) ==> x.wf() && x.val() == value,
    {
        if value < MODULUS {
            let msb = (value >> 1) & 1;
            let lsb = value & 1;
            assert(msb == value / 2 && lsb == value % 2) by (bit_vector)
                requires
                    value < 3u8,
                    msb == (value >> 1u8) & 1u8,
                    lsb == value & 1u8,
            ;
            Ok(F3 { msb, lsb })
        } else {
            Err(BiggerThanModulus)
        }
    }

    /// Converts a 64-bit integer below three; larger integers are refused.
    pub fn try_from_u64(value: u64) -> (r: Result<F3, BiggerThanModulus>)
        ensures
            value < 3 <==> r is Ok,
            r matches Ok(x) ==> x.wf() && x.val() == value,
    {
        if value < 3 {
            F3::try_from(value as u8)
        } else {
            Err(BiggerThanModulus)
        }
    }

    /// Converts a 128-bit integer below three; larger integers are refused.
    pub fn try_from_u128(value: u128) -> (r: Result<F3, BiggerThanModulus>)
        ensures
            value < 3 <==> r is Ok,
            r matches Ok(x) ==> x.wf() && x.val() == value,
    {
        if value < 3 {
            F3::try_from(value as u8)
        } else {
            Err(BiggerThanModulus)
        }
    }

    /// The element of value `v % 3`, for any byte `v`.
    pub fn from_u8_mod(v: u8) -> (r: F3)
        ensures
            r.wf(),
            r.val() == v % 3,
    {
        let m = v % MODULUS;
        match F3::try_from(m) {
            Ok(x) => x,
            Err(_) => F3::zero(),
        }
    }

    /// The element of a random word: the word modulo three.
    pub fn from_random_u32(v: u32) -> (r: F3)
        ensures
            r.wf(),
            r.val() == v % 3,
    {
        let value = v % 3;
        F3::from_u8_mod(value as u8)
    }

    /// A random element: 32 random bits reduced modulo three, by [`F3::from_random_u32`].
    pub fn random(rng: &mut rand::rngs::StdRng) -> (r: F3)
        ensures
            r.wf(),
    {
        let value = crate::rng::rng_next_u32(rng);
        F3::from_random_u32(value)
    }

    /// A random non-zero element: 2 when the low bit of 32 random bits is 0, else 1.
    pub fn random_nonzero(rng: &mut rand::rngs::StdRng) -> (r: F3)
        ensures
            r.wf(),
            r.val() != 0,
    {
        let value = crate::rng::rng_next_u32(rng);
        if value & 1 == 0 {
            F3 { msb: 1, lsb: 0 }
        } else {
            F3 { msb: 0, lsb: 1 }
        }
    }

    /// The element of value `x mod 3`, where `x` is the little-endian integer of the
    /// sixteen bytes.
    pub fn from_uniform_bytes(x: &[u8; 16]) -> (r: F3)
        ensures
            r.wf(),
            r.val() == crate::bytes::le_value(x@) % 3,
    {
        let value = crate::bytes::le_u128(x) % 3;
        F3::from_u8_mod(value as u8)
    }

    /// Constant-time equality: 1 when the elements are equal, 0 otherwise.
    pub fn ct_eq(&self, other: &F3) -> (r: u8)
        ensures
            r == (if *self == *other { 1u8 } else { 0u8 }),
    {
        crate::ct::choice_and(crate::ct::ct_eq_u8(self.msb, other.msb), crate::ct::ct_eq_u8(self.lsb, other.lsb))
    }

    /// Constant-time selection: `a` when `choice` is 0, `b` when it is 1.
    pub fn conditional_select(a: &F3, b: &F3, choice: u8) -> (r: F3)
        requires
            choice <= 1,
        ensures
            r == (if choice == 0 { *a } else { *b }),
    {
        let msb = crate::ct::conditional_select_u8(a.msb, b.msb, choice);
        let lsb = crate::ct::conditional_select_u8(a.lsb, b.lsb, choice);
        F3 { msb, lsb }
    }

    /// The value of the element as a byte.
    pub fn to_u8(self) -> (r: u8)
        requires
            self.wf(),
        ensures
            r == self.val(),
            r < 3,
    {
        self.msb * 2 + self.lsb
    }

    /// Field addition.
    pub fn add_assign(&mut self, rhs: &F3)
        requires
            old(self).wf(),
            rhs.wf(),
        ensures
            final(self).wf(),
            final(self).val() == (old(self).val() + rhs.val()) % 3,
    {
        let sm = self.msb;
        let sl = self.lsb;
        let rm = rhs.msb;
        let rl = rhs.lsb;
        let t = (sl | rm) ^ (sm | rl);
        let msb = (sl | rl) ^ t;
        let lsb = (sm | rm) ^ t;
        assert(((msb == 0 && lsb <= 1) || (msb == 1 && lsb == 0)) && 2 * msb + lsb == (2 * sm + sl
            + 2 * rm + rl) % 3) by (bit_vector)
            requires
                (sm == 0 && sl <= 1) || (sm == 1 && sl == 0),
                (rm == 0 && rl <= 1) || (rm == 1 && rl == 0),
                t == (sl | rm) ^ (sm | rl),
                msb == (sl | rl) ^ t,
                lsb == (sm | rm) ^ t,
        ;
        self.msb = msb;
        self.lsb = lsb;
    }

    /// Field subtraction.
    pub fn sub_assign(&mut self, rhs: &F3)
        requires
            old(self).wf(),
            rhs.wf(),
        ensures
            final(self).wf(),
            (final(self).val() + rhs.val()) % 3 == old(self).val(),
    {
        let a = self.to_u8();
        let b = rhs.to_u8();
        let diff = (a + MODULUS - b) % MODULUS;
        let value = F3::from_u8_mod(diff);
        self.msb = value.msb;
        self.lsb = value.lsb;
    }

    /// Field multiplication.
    pub fn mul_assign(&mut self, rhs: &F3)
        requires
            old(self).wf(),
            rhs.wf(),
        ensures
            final(self).wf(),
            final(self).val() == (old(self).val() * rhs.val()) % 3,
    {
        // zero annihilates, one is neutral, and two swaps the bits of the other factor
        proof {
            lemma_f3_mul_cases(*old(self), *rhs);
        }
        let (msb, lsb) = if self.msb == 0 && self.lsb == 0 {
            (0u8, 0u8)
        } else if self.msb == 0 {
            (rhs.msb, rhs.lsb)
        } else {
            (rhs.lsb, rhs.msb)
        };
        self.msb = msb;
        self.lsb = lsb;
    }

    /// The sum of two elements.
    pub fn add(&self, rhs: &F3) -> (r: F3)
        requires
            self.wf(),
            rhs.wf(),
        ensures
            r.wf(),
            r.val() == (self.val() + rhs.val()) % 3,
    {
        let mut r = *self;
        r.add_assign(rhs);
        r
    }

    /// The difference of two elements.
    pub fn sub(&self, rhs: &F3) -> (r: F3)
        requires
            self.wf(),
            rhs.wf(),
        ensures
            r.wf(),
            (r.val() + rhs.val()) % 3 == self.val(),
    {
        let mut r = *self;
        r.sub_assign(rhs);
        r
    }

    /// The product of two elements.
    pub fn mul(&self, rhs: &F3) -> (r: F3)
        requires
            self.wf(),
            rhs.wf(),
        ensures
            r.wf(),
            r.val() == (self.val() * rhs.val()) % 3,
    {
        let mut r = *self;
        r.mul_assign(rhs);
        r
    }

    /// The additive inverse.
    pub fn neg(&self) -> (r: F3)
        requires
            self.wf(),
        ensures
            r.wf(),
            (r.val() + self.val()) % 3 == 0,
    {
        F3 { msb: self.lsb, lsb: self.msb }
    }

    /// The multiplicative inverse of a non-zero element, which is the element itself.
    pub fn inverse(&self) -> (r: F3)
        requires
            self.wf(),
            self.val() != 0,
        ensures
            r.wf(),
            (r.val() * self.val()) % 3 == 1,
    {
        proof {
            lemma_f3_mul_cases(*self, *self);
        }
        *self
    }

    /// Little-endian bits of the encoding: `[lsb != 0, msb != 0]`.
    pub fn bit_decomposition(&self) -> (bits: [bool; 2])
        ensures
            bits[0] == (self.lsb != 0),
            bits[1] == (self.msb != 0),
    {
        let mut bits = [false; 2];
        bits[1] = self.msb != 0;
        bits[0] = self.lsb != 0;
        bits
    }

    /// The one-byte canonical encoding.
    pub fn to_bytes(&self) -> (r: [u8; 1])
        requires
            self.wf(),
        ensures
            r[0] == self.val(),
    {
        [self.to_u8()]
    }

    /// Decodes the one-byte encoding; bytes of value three or more are refused.
    pub fn from_bytes(bytes: &[u8; 1]) -> (r: Result<F3, BiggerThanModulus>)
        ensures
            bytes[0] < 3 <==> r is Ok,
            r matches Ok(x) ==> x.wf() && x.val() == bytes[0],
    {
        F3::try_from(bytes[0])
    }
}

} // verus!
